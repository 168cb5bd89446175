//! A bounded timer wheel: 32 buckets, one advanced per hardware tick, and 32 slots that hold
//! the wakers of armed timers. Wakers are task indices of the executor; firing a timer raises
//! its task's wake bit. Collisions are resolved by probing forward to the next free bucket within
//! one turn of the wheel, which makes the timer late by the buckets skipped, never early.

use vstd::prelude::*;

use crate::executor::Runtime;

verus! {

/// The number of buckets of the wheel, and of slots for armed timers.
pub const WHEEL_WIDTH: usize = 32;

/// Maps a time in milliseconds to wheel ticks.
pub trait Timescale {
    spec fn spec_scale(time: nat) -> nat;

    fn scale_ms(time: usize) -> (r: usize)
        ensures
            r == Self::spec_scale(time as nat),
    ;
}

/// A tick of `N` milliseconds: times are rounded up to whole ticks.
pub struct ScaleGeneral<const N: usize> {}

/// `time` divided by `n`, rounded up (`time` itself for a zero divisor).
pub open spec fn ceil_div(time: nat, n: nat) -> nat {
    if n == 0 {
        time
    } else if time % n == 0 {
        time / n
    } else {
        time / n + 1
    }
}

impl<const N: usize> Timescale for ScaleGeneral<N> {
    open spec fn spec_scale(time: nat) -> nat {
        ceil_div(time, N as nat)
    }

    fn scale_ms(time: usize) -> (r: usize) {
        if N == 0 {
            time
        } else if time % N == 0 {
            time / N
        } else {
            assert(time / N < time || time / N + 1 <= usize::MAX) by (nonlinear_arith)
                requires
                    N > 0,
                    time % N != 0,
            {
                if time / N >= time {
                    assert(N * (time / N) <= time);
                }
            }
            time / N + 1
        }
    }
}

pub type Scale1Ms = ScaleGeneral<1>;

pub type Scale10Ms = ScaleGeneral<10>;

pub type Scale100Ms = ScaleGeneral<100>;

/// A slot for one timer: free (0), taken by a fired timer whose handle is still held (1), or
/// armed (2) with the waker to run when its bucket comes round.
#[derive(Debug, PartialEq, Eq, Structural, Clone, Copy)]
pub struct Slot {
    pub state: u8,
    pub waker: Option<usize>,
    pub fired: bool,
}

impl Slot {
    pub fn new() -> (r: Slot)
        ensures
            r == free_slot(),
    {
        Slot { state: 0, waker: None, fired: false }
    }
}

pub open spec fn free_slot() -> Slot {
    Slot { state: 0, waker: None, fired: false }
}

pub open spec fn armed_slot(waker: usize) -> Slot {
    Slot { state: 2, waker: Some(waker), fired: false }
}

pub open spec fn fired_slot() -> Slot {
    Slot { state: 1, waker: None, fired: true }
}

/// The slots of a wheel.
pub struct SlotStorage<const N: usize> {
    wakers: Vec<Slot>,
}

impl<const N: usize> SlotStorage<N> {
    pub closed spec fn spec_slots(&self) -> Seq<Slot> {
        self.wakers@
    }

    /// `N` free slots.
    pub fn new() -> (r: SlotStorage<N>)
        ensures
            r.spec_slots() == Seq::new(N as nat, |i: int| free_slot()),
    {
        let mut wakers: Vec<Slot> = Vec::with_capacity(N);
        let mut i: usize = 0;
        while i < N
            invariant
                i <= N,
                wakers@ == Seq::new(i as nat, |j: int| free_slot()),
            decreases N - i,
        {
            wakers.push(Slot::new());
            i = i + 1;
            assert(wakers@ =~= Seq::new(i as nat, |j: int| free_slot()));
        }
        SlotStorage { wakers }
    }

    /// Arms the first free slot with `waker`; fails when no slot is free.
    pub fn add_waker(&mut self, waker: usize) -> (r: Result<usize, ()>)
        ensures
            match r {
                Ok(i) => i < old(self).spec_slots().len() && old(self).spec_slots()[i as int].state == 0
                    && (forall|j: int| 0 <= j < i ==> old(self).spec_slots()[j].state != 0)
                    && final(self).spec_slots() == old(self).spec_slots().update(i as int, armed_slot(waker)),
                Err(_) => (forall|j: int|
                    0 <= j < old(self).spec_slots().len() ==> old(self).spec_slots()[j].state != 0)
                    && final(self).spec_slots() == old(self).spec_slots(),
            },
    {
        let mut i: usize = 0;
        while i < self.wakers.len()
            invariant
                *self == *old(self),
                i <= self.wakers@.len(),
                forall|j: int| 0 <= j < i ==> self.wakers@[j].state != 0,
            decreases self.wakers@.len() - i,
        {
            if self.wakers[i].state == 0 {
                self.wakers.set(i, Slot { state: 2, waker: Some(waker), fired: false });
                return Ok(i);
            }
            i = i + 1;
        }
        Err(())
    }

    /// Takes the waker out of an armed slot, leaving it fired; `None` for any other slot.
    pub fn take_slot(&mut self, index: usize) -> (r: Option<usize>)
        ensures
            if index < old(self).spec_slots().len() && old(self).spec_slots()[index as int].state == 2 {
                r == old(self).spec_slots()[index as int].waker && final(self).spec_slots()
                    == old(self).spec_slots().update(index as int, fired_slot())
            } else {
                r is None && final(self).spec_slots() == old(self).spec_slots()
            },
    {
        if index >= self.wakers.len() || self.wakers[index].state != 2 {
            return None;
        }
        let waker = self.wakers[index].waker;
        self.wakers.set(index, Slot { state: 1, waker: None, fired: true });
        waker
    }
}

/// A wheel of 32 buckets, each empty (-1) or holding the index of an armed slot.
pub struct LevelOneWheel {
    current: usize,
    slots: Vec<isize>,
}

impl LevelOneWheel {
    pub closed spec fn spec_current(&self) -> nat {
        self.current as nat
    }

    pub closed spec fn spec_buckets(&self) -> Seq<isize> {
        self.slots@
    }

    /// A wheel at bucket 0 with every bucket empty.
    pub fn new() -> (r: LevelOneWheel)
        ensures
            r.spec_current() == 0,
            r.spec_buckets() == Seq::new(WHEEL_WIDTH as nat, |i: int| -1isize),
    {
        let mut slots: Vec<isize> = Vec::with_capacity(WHEEL_WIDTH);
        let mut i: usize = 0;
        while i < WHEEL_WIDTH
            invariant
                i <= WHEEL_WIDTH,
                slots@ == Seq::new(i as nat, |j: int| -1isize),
            decreases WHEEL_WIDTH - i,
        {
            slots.push(-1);
            i = i + 1;
            assert(slots@ =~= Seq::new(i as nat, |j: int| -1isize));
        }
        LevelOneWheel { current: 0, slots }
    }
}

/// What an added timer left behind: either it fired at once (a time of zero), or it holds a
/// slot until released.
#[derive(Debug, PartialEq, Eq, Structural, Clone, Copy)]
pub enum TimerHandle {
    Registered { slot: usize },
    Fired,
}

#[derive(Debug, PartialEq, Eq, Structural, Clone, Copy)]
pub enum WheelAddError {
    /// The time is beyond the wheel
    OutOfRange,
    /// No slot, or no bucket within reach, is free
    Full,
}

/// The bucket the wheel reaches `k` ticks after bucket `current`.
pub open spec fn bucket_after(current: nat, k: nat) -> nat {
    (current + k) % (WHEEL_WIDTH as nat)
}

/// A timer wheel whose ticks are `S`.
pub struct TimerWheel<S> {
    wheel: LevelOneWheel,
    waker: SlotStorage<32>,
    _marker: core::marker::PhantomData<S>,
}

impl<S: Timescale> TimerWheel<S> {
    pub closed spec fn current(&self) -> nat {
        self.wheel.spec_current()
    }

    pub closed spec fn buckets(&self) -> Seq<isize> {
        self.wheel.spec_buckets()
    }

    pub closed spec fn slots(&self) -> Seq<Slot> {
        self.waker.spec_slots()
    }

    /// Each bucket is empty or names an armed slot that no other bucket names, and each armed
    /// slot has a waker.
    pub open spec fn wf(&self) -> bool {
        &&& self.buckets().len() == WHEEL_WIDTH
        &&& self.slots().len() == WHEEL_WIDTH
        &&& self.current() < WHEEL_WIDTH
        &&& forall|b: int|
            0 <= b < WHEEL_WIDTH ==> #[trigger] self.buckets()[b] == -1 || (0 <= self.buckets()[b]
                < WHEEL_WIDTH && self.slots()[self.buckets()[b] as int].state == 2)
        &&& forall|b1: int, b2: int|
            0 <= b1 < WHEEL_WIDTH && 0 <= b2 < WHEEL_WIDTH && b1 != b2 && #[trigger] self.buckets()[b1]
                >= 0 ==> self.buckets()[b1] != #[trigger] self.buckets()[b2]
        &&& forall|s: int|
            0 <= s < WHEEL_WIDTH && #[trigger] self.slots()[s].state == 2 ==> self.slots()[s].waker
                is Some
        &&& forall|s: int|
            0 <= s < WHEEL_WIDTH && #[trigger] self.slots()[s].state == 0 ==> self.slots()[s]
                == free_slot()
    }

    /// A wheel at bucket 0 with every bucket empty and every slot free.
    pub fn new() -> (r: TimerWheel<S>)
        ensures
            r.wf(),
            r.current() == 0,
            r.buckets() == Seq::new(WHEEL_WIDTH as nat, |i: int| -1isize),
            r.slots() == Seq::new(WHEEL_WIDTH as nat, |i: int| free_slot()),
    {
        TimerWheel {
            wheel: LevelOneWheel::new(),
            waker: SlotStorage::new(),
            _marker: core::marker::PhantomData,
        }
    }

    /// Advances to the next bucket; a timer armed there fires: its slot is marked fired and its
    /// task is woken.
    pub fn tick(&mut self, rt: &mut Runtime)
        requires
            old(self).wf(),
            old(rt).wf(),
        ensures
            final(self).wf(),
            final(rt).wf(),
            final(self).current() == bucket_after(old(self).current(), 1),
            final(rt).spec_done() == old(rt).spec_done(),
            ({
                let b = bucket_after(old(self).current(), 1) as int;
                let s = old(self).buckets()[b];
                if s >= 0 {
                    &&& final(self).buckets() == old(self).buckets().update(b, -1isize)
                    &&& final(self).slots() == old(self).slots().update(s as int, fired_slot())
                    &&& final(rt).spec_woken() == ({
                        let w = old(self).slots()[s as int].waker->Some_0;
                        if w < old(rt).len() {
                            old(rt).spec_woken().update(w as int, true)
                        } else {
                            old(rt).spec_woken()
                        }
                    })
                } else {
                    &&& final(self).buckets() == old(self).buckets()
                    &&& final(self).slots() == old(self).slots()
                    &&& final(rt).spec_woken() == old(rt).spec_woken()
                }
            }),
    {
        let index = (self.wheel.current + 1) % WHEEL_WIDTH;
        self.wheel.current = index;
        let waker_index = self.wheel.slots[index];
        if waker_index < 0 {
            return;
        }
        self.wheel.slots.set(index, -1);
        match self.waker.take_slot(waker_index as usize) {
            Some(w) => rt.wake(w),
            None => {},
        }
        assert forall|b1: int, b2: int|
            0 <= b1 < WHEEL_WIDTH && 0 <= b2 < WHEEL_WIDTH && b1 != b2 && #[trigger] self.buckets()[b1]
                >= 0 implies self.buckets()[b1] != #[trigger] self.buckets()[b2] by {
            assert(old(self).buckets()[b1] >= 0);
            if b2 != index {
                assert(old(self).buckets()[b1] != old(self).buckets()[b2]);
            } else {
                assert(old(self).buckets()[b1] != old(self).buckets()[index as int]);
            }
        }
        assert forall|b: int| 0 <= b < WHEEL_WIDTH implies #[trigger] self.buckets()[b] == -1 || (0
            <= self.buckets()[b] < WHEEL_WIDTH && self.slots()[self.buckets()[b] as int].state
            == 2) by {
            if b != index && self.buckets()[b] >= 0 {
                assert(old(self).buckets()[b] != old(self).buckets()[index as int]);
            }
        }
    }

    /// What adding a timer `t` ticks ahead with `waker` does to the wheel, with result `r`.
    /// A time of zero fires at once. A time beyond the wheel (more than 32 ticks) is out of
    /// range. Otherwise the first free slot is armed and put in the first free bucket `t + i`
    /// ticks ahead, probing only as far as `t + i <= 32`, so that it is never early; the add is
    /// `Full` exactly when no slot or no such bucket is free.
    pub open spec fn add_outcome(&self, after: &Self, t: nat, waker: usize, r: Result<TimerHandle, WheelAddError>) -> bool {
        &&& after.current() == self.current()
        &&& t == 0 ==> r == Ok::<TimerHandle, WheelAddError>(TimerHandle::Fired)
        &&& t > WHEEL_WIDTH ==> r == Err::<TimerHandle, WheelAddError>(WheelAddError::OutOfRange)
        &&& (t == 0 || r is Err) ==> after.buckets() == self.buckets() && after.slots() == self.slots()
        &&& 0 < t <= WHEEL_WIDTH ==> (r is Ok <==> (exists|s: int|
            0 <= s < WHEEL_WIDTH && self.slots()[s].state == 0) && (exists|i: int|
            0 <= i && t + i <= WHEEL_WIDTH && self.buckets()[#[trigger] bucket_after(
                self.current(),
                (t + i) as nat,
            ) as int] == -1))
        &&& 0 < t <= WHEEL_WIDTH && r is Err ==> r == Err::<TimerHandle, WheelAddError>(WheelAddError::Full)
        &&& t != 0 && r is Ok ==> (r matches Ok(TimerHandle::Registered { slot }) && slot < WHEEL_WIDTH
            && self.slots()[slot as int].state == 0 && (forall|j: int|
            0 <= j < slot ==> self.slots()[j].state != 0) && (exists|i: int|
            0 <= i && t + i <= WHEEL_WIDTH && ({
                let b = #[trigger] bucket_after(self.current(), (t + i) as nat) as int;
                &&& self.buckets()[b] == -1
                &&& after.buckets() == self.buckets().update(b, slot as isize)
                &&& forall|j: int|
                    0 <= j < i ==> self.buckets()[#[trigger] bucket_after(
                        self.current(),
                        (t + j) as nat,
                    ) as int] != -1
            })) && after.slots() == self.slots().update(slot as int, armed_slot(waker)))
    }

    /// Arms a timer that fires `time` milliseconds from now, rounded up to whole ticks of `S`
    /// (see `add_outcome`); a time of zero wakes the task at once.
    pub fn add_ms(&mut self, time: usize, waker: usize, rt: &mut Runtime) -> (r: Result<TimerHandle, WheelAddError>)
        requires
            old(self).wf(),
            old(rt).wf(),
        ensures
            final(self).wf(),
            final(rt).wf(),
            final(rt).spec_done() == old(rt).spec_done(),
            old(self).add_outcome(&*final(self), S::spec_scale(time as nat), waker, r),
            final(rt).spec_woken() == if S::spec_scale(time as nat) == 0 && waker < old(rt).len() {
                old(rt).spec_woken().update(waker as int, true)
            } else {
                old(rt).spec_woken()
            },
    {
        let ticks = S::scale_ms(time);
        self.add_ticks(ticks, waker, rt)
    }

    /// Arms a timer that fires `t` ticks from now (see `add_outcome`); a time of zero wakes the
    /// task at once.
    pub fn add_ticks(&mut self, t: usize, waker: usize, rt: &mut Runtime) -> (r: Result<TimerHandle, WheelAddError>)
        requires
            old(self).wf(),
            old(rt).wf(),
        ensures
            final(self).wf(),
            final(rt).wf(),
            final(rt).spec_done() == old(rt).spec_done(),
            old(self).add_outcome(&*final(self), t as nat, waker, r),
            final(rt).spec_woken() == if t == 0 && waker < old(rt).len() {
                old(rt).spec_woken().update(waker as int, true)
            } else {
                old(rt).spec_woken()
            },
    {
        if t == 0 {
            rt.wake(waker);
            return Ok(TimerHandle::Fired);
        }
        if t > WHEEL_WIDTH {
            return Err(WheelAddError::OutOfRange);
        }
        let ghost old_slots = self.slots();
        let slot = match self.waker.add_waker(waker) {
            Ok(s) => s,
            Err(_) => {
                return Err(WheelAddError::Full);
            },
        };
        let current = self.wheel.current;
        match self.find_bucket(t) {
            Some(i) => {
                let b = (current + t + i) % WHEEL_WIDTH;
                self.wheel.slots.set(b, slot as isize);
                proof {
                    assert forall|s: int| 0 <= s < WHEEL_WIDTH && #[trigger] old(self).buckets()[s] >= 0
                        implies old(self).buckets()[s] != slot as isize by {}
                    assert(b == bucket_after(current as nat, (t + i) as nat));
                }
                Ok(TimerHandle::Registered { slot })
            },
            None => {
                self.waker.wakers.set(slot, Slot { state: 0, waker: None, fired: false });
                assert(self.slots() =~= old(self).slots());
                Err(WheelAddError::Full)
            },
        }
    }

    /// The first probe distance `i`, with `t + i <= 32`, whose bucket `t + i` ticks ahead is
    /// empty.
    fn find_bucket(&self, t: usize) -> (r: Option<usize>)
        requires
            self.wf(),
            0 < t <= WHEEL_WIDTH,
        ensures
            match r {
                Some(i) => t + i <= WHEEL_WIDTH && self.buckets()[bucket_after(self.current(), (t + i) as nat) as int]
                    == -1 && forall|j: int| 0 <= j < i ==> self.buckets()[#[trigger] bucket_after(
                    self.current(),
                    (t + j) as nat,
                ) as int] != -1,
                None => forall|j: int| 0 <= j && t + j <= WHEEL_WIDTH ==> self.buckets()[#[trigger] bucket_after(
                    self.current(),
                    (t + j) as nat,
                ) as int] != -1,
            },
    {
        let current = self.wheel.current;
        let mut i: usize = 0;
        while t + i <= WHEEL_WIDTH
            invariant
                self.wf(),
                current == self.current(),
                0 < t <= WHEEL_WIDTH,
                t + i <= WHEEL_WIDTH + 1,
                forall|j: int|
                    0 <= j < i ==> self.buckets()[#[trigger] bucket_after(current as nat, (t + j) as nat) as int]
                        != -1,
            decreases WHEEL_WIDTH + 1 - t - i,
        {
            let b = (current + t + i) % WHEEL_WIDTH;
            assert(b == bucket_after(current as nat, (t + i) as nat));
            if self.wheel.slots[b] == -1 {
                return Some(i);
            }
            i = i + 1;
        }
        None
    }

    /// Whether the timer behind a handle has fired.
    pub fn is_fired(&self, handle: &TimerHandle) -> (r: bool)
        requires
            self.wf(),
        ensures
            r == match handle {
                TimerHandle::Fired => true,
                TimerHandle::Registered { slot } => *slot < WHEEL_WIDTH && self.slots()[*slot as int].fired,
            },
    {
        match handle {
            TimerHandle::Fired => true,
            TimerHandle::Registered { slot } => *slot < self.waker.wakers.len()
                && self.waker.wakers[*slot].fired,
        }
    }

    /// Gives back the slot of a handle, emptying any bucket that still names it.
    pub fn release(&mut self, handle: TimerHandle)
        requires
            old(self).wf(),
        ensures
            final(self).wf(),
            final(self).current() == old(self).current(),
            match handle {
                TimerHandle::Registered { slot } if slot < WHEEL_WIDTH => {
                    &&& final(self).slots() == old(self).slots().update(slot as int, free_slot())
                    &&& forall|b: int|
                        0 <= b < WHEEL_WIDTH ==> #[trigger] final(self).buckets()[b] == if old(self).buckets()[b]
                            == slot as isize {
                            -1isize
                        } else {
                            old(self).buckets()[b]
                        }
                },
                _ => final(self).slots() == old(self).slots() && final(self).buckets() == old(self).buckets(),
            },
    {
        if let TimerHandle::Registered { slot } = handle {
            if slot < WHEEL_WIDTH {
                let mut b: usize = 0;
                while b < WHEEL_WIDTH
                    invariant
                        old(self).wf(),
                        slot < WHEEL_WIDTH,
                        b <= WHEEL_WIDTH,
                        self.wheel.current == old(self).wheel.current,
                        self.slots() == old(self).slots(),
                        self.buckets().len() == WHEEL_WIDTH,
                        forall|c: int|
                            0 <= c < WHEEL_WIDTH ==> #[trigger] self.buckets()[c] == if c < b && old(self).buckets()[c]
                                == slot as isize {
                                -1isize
                            } else {
                                old(self).buckets()[c]
                            },
                    decreases WHEEL_WIDTH - b,
                {
                    if self.wheel.slots[b] == slot as isize {
                        self.wheel.slots.set(b, -1);
                    }
                    b = b + 1;
                }
                self.waker.wakers.set(slot, Slot { state: 0, waker: None, fired: false });
                assert forall|c: int| 0 <= c < WHEEL_WIDTH implies #[trigger] self.buckets()[c] == -1 || (0
                    <= self.buckets()[c] < WHEEL_WIDTH && self.slots()[self.buckets()[c] as int].state
                    == 2) by {
                    if self.buckets()[c] != -1 {
                        assert(old(self).buckets()[c] != slot as isize);
                    }
                }
                assert forall|b1: int, b2: int|
                    0 <= b1 < WHEEL_WIDTH && 0 <= b2 < WHEEL_WIDTH && b1 != b2 && #[trigger] self.buckets()[b1]
                        >= 0 implies self.buckets()[b1] != #[trigger] self.buckets()[b2] by {
                    assert(old(self).buckets()[b1] >= 0);
                    assert(old(self).buckets()[b1] != old(self).buckets()[b2]);
                }
            }
        }
    }

    /// A sleep of `time` milliseconds, rounded up to whole ticks.
    pub fn sleep_ms(&self, time: usize) -> (r: SleepMs)
        ensures
            r.spec_handle() is None,
            r.spec_time() == S::spec_scale(time as nat),
    {
        SleepMs { handle: None, time: S::scale_ms(time) }
    }
}

/// A sleep that registers itself on its first poll and is ready once its timer fired.
pub struct SleepMs {
    handle: Option<TimerHandle>,
    time: usize,
}

impl SleepMs {
    pub closed spec fn spec_handle(&self) -> Option<TimerHandle> {
        self.handle
    }

    pub closed spec fn spec_time(&self) -> nat {
        self.time as nat
    }

    /// Polls on behalf of task `task`: `None` while pending, `Some(Ok(()))` once the timer
    /// fired, `Some(Err(()))` when the timer could not be added.
    pub fn poll<S: Timescale>(&mut self, timer: &mut TimerWheel<S>, rt: &mut Runtime, task: usize) -> (r: Option<Result<(), ()>>)
        requires
            old(timer).wf(),
            old(rt).wf(),
        ensures
            final(timer).wf(),
            final(rt).wf(),
            final(timer).current() == old(timer).current(),
            final(rt).spec_done() == old(rt).spec_done(),
            final(self).spec_time() == old(self).spec_time(),
            match old(self).spec_handle() {
                Some(h) => {
                    &&& r == if old(timer).is_fired_spec(h) {
                        Some(Ok::<(), ()>(()))
                    } else {
                        None
                    }
                    &&& final(self).spec_handle() == Some(h)
                    &&& *final(timer) == *old(timer)
                    &&& *final(rt) == *old(rt)
                },
                None => {
                    &&& final(rt).spec_woken() == if old(self).spec_time() == 0 && task < old(rt).len() {
                        old(rt).spec_woken().update(task as int, true)
                    } else {
                        old(rt).spec_woken()
                    }
                    &&& match final(self).spec_handle() {
                        Some(h) => r is None && old(timer).add_outcome(
                            &*final(timer),
                            old(self).spec_time(),
                            task,
                            Ok(h),
                        ),
                        None => r == Some(Err::<(), ()>(())) && (old(timer).add_outcome(
                            &*final(timer),
                            old(self).spec_time(),
                            task,
                            Err(WheelAddError::OutOfRange),
                        ) || old(timer).add_outcome(
                            &*final(timer),
                            old(self).spec_time(),
                            task,
                            Err(WheelAddError::Full),
                        )),
                    }
                },
            },
    {
        match self.handle {
            Some(h) => {
                if timer.is_fired(&h) {
                    Some(Ok(()))
                } else {
                    None
                }
            },
            None => match timer.add_ticks(self.time, task, rt) {
                Ok(h) => {
                    self.handle = Some(h);
                    None
                },
                Err(_) => Some(Err(())),
            },
        }
    }
}

impl<S: Timescale> TimerWheel<S> {
    /// Whether the timer behind a handle has fired.
    pub open spec fn is_fired_spec(&self, handle: TimerHandle) -> bool {
        match handle {
            TimerHandle::Fired => true,
            TimerHandle::Registered { slot } => slot < WHEEL_WIDTH && self.slots()[slot as int].fired,
        }
    }
}

/// A timer added `t` ticks ahead (1 to 32) into an empty bucket is reached by the `t`-th tick
/// and by no earlier one. One placed `i` buckets further on by collision (the probe stays within
/// `t + i <= 32`) is reached by the `(t + i)`-th tick and by no earlier one: never early, and at
/// most 31 ticks late.
pub proof fn lemma_timer_accuracy(current: nat, t: nat, i: nat, k: nat)
    requires
        current < WHEEL_WIDTH,
        0 < t <= WHEEL_WIDTH,
        t + i <= WHEEL_WIDTH,
        0 < k <= t + i,
    ensures
        (bucket_after(current, k) == bucket_after(current, t + i)) <==> k == t + i,
        i <= WHEEL_WIDTH - 1,
{
    if k != t + i {
        let a = current + k;
        let d = (t + i - k) as nat;
        assert(a + d == current + t + i);
        assert((a + d) % 32 != a % 32) by (nonlinear_arith)
            requires
                0 < d < 32,
        {
            assert((a + d) % 32 == (a % 32 + d) % 32);
        }
    }
}

} // verus!
