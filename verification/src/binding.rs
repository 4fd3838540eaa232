use crate::error::GifError;
use crate::store::{lookup, FrameHandle, Gif};
use crate::trigger::{elapsed_after, fires, TriggerState};
use vstd::prelude::*;

verus! {

/// How a binding picks its next frame when its trigger fires.
#[derive(Clone, Copy, Debug, PartialEq, Eq, Structural)]
pub enum SelectionPolicy {
    /// Step to the frame after the current one, wrapping at the end.
    Sequential,
    /// Draw any frame of the sequence, each with the same chance, without
    /// regard to earlier draws.
    Random,
}

/// The index a policy selects in a sequence of `len` frames, given the
/// binding's current frame and the number that was drawn for this fire.
pub open spec fn select_index(policy: SelectionPolicy, frame: int, len: int, draw: int) -> int {
    match policy {
        SelectionPolicy::Sequential => if len > 0 {
            (frame + 1) % len
        } else {
            0
        },
        SelectionPolicy::Random => draw,
    }
}

/// A binding as contracts see it.
pub struct BindingView {
    /// The key of the sequence being played.
    pub key: Seq<char>,
    /// The index of the frame picked last. Only the sequential policy keeps it.
    pub frame: nat,
    pub policy: SelectionPolicy,
    /// The trigger's interval, in nanoseconds.
    pub interval: nat,
    /// The time the trigger has gathered, in nanoseconds.
    pub elapsed: nat,
}

impl BindingView {
    /// Whether `draw` is a number the random source may hand out for this
    /// binding: an index into its sequence, whenever the sequence has frames.
    pub open spec fn admits(self, table: Map<Seq<char>, Seq<FrameHandle>>, draw: int) -> bool {
        table.contains_key(self.key) && table[self.key].len() > 0 ==> 0 <= draw
            < table[self.key].len()
    }

    /// A fire: the binding afterwards, and the frame it resolved or the
    /// store's error.
    ///
    /// The binding moves only when a frame was resolved under the sequential
    /// policy.
    pub open spec fn on_fire(self, table: Map<Seq<char>, Seq<FrameHandle>>, draw: int) -> (
        BindingView,
        Result<FrameHandle, GifError>,
    ) {
        if !table.contains_key(self.key) {
            (self, Err(GifError::UnknownSequence))
        } else {
            let index = select_index(
                self.policy,
                self.frame as int,
                table[self.key].len() as int,
                draw,
            );
            let outcome = lookup(table, self.key, index);
            if outcome is Ok && self.policy == SelectionPolicy::Sequential {
                (BindingView { frame: index as nat, ..self }, outcome)
            } else {
                (self, outcome)
            }
        }
    }

    /// The binding after one fire for each of `draws`, in order.
    pub open spec fn after_fires(
        self,
        table: Map<Seq<char>, Seq<FrameHandle>>,
        draws: Seq<int>,
    ) -> BindingView
        decreases draws.len(),
    {
        if draws.len() == 0 {
            self
        } else {
            self.after_fires(table, draws.drop_last()).on_fire(table, draws.last()).0
        }
    }

    /// Whether a fire may take this binding to `after` with `outcome`: some
    /// number that the random source may hand out leads there.
    pub open spec fn fires_to(
        self,
        after: BindingView,
        table: Map<Seq<char>, Seq<FrameHandle>>,
        outcome: Result<FrameHandle, GifError>,
    ) -> bool {
        exists|draw: int| #[trigger]
            self.admits(table, draw) && (after, outcome) == self.on_fire(table, draw)
    }

    /// Whether a scheduling pass of `delta` nanoseconds may take this binding
    /// to `after` with `outcome`.
    pub open spec fn ticks_to(
        self,
        after: BindingView,
        table: Map<Seq<char>, Seq<FrameHandle>>,
        delta: int,
        outcome: Result<Option<FrameHandle>, GifError>,
    ) -> bool {
        exists|draw: int| #[trigger]
            self.admits(table, draw) && (after, outcome) == self.tick(table, delta, draw)
    }

    /// A scheduling pass of `delta` nanoseconds: the binding afterwards, and
    /// `Ok(None)` when the trigger did not fire, else what the fire gave.
    pub open spec fn tick(
        self,
        table: Map<Seq<char>, Seq<FrameHandle>>,
        delta: int,
        draw: int,
    ) -> (BindingView, Result<Option<FrameHandle>, GifError>) {
        let timed = BindingView {
            elapsed: elapsed_after(self.interval as int, self.elapsed as int, delta) as nat,
            ..self
        };
        if fires(self.interval as int, self.elapsed as int, delta) {
            let (next, outcome) = timed.on_fire(table, draw);
            (
                next,
                match outcome {
                    Ok(frame) => Ok(Some(frame)),
                    Err(error) => Err(error),
                },
            )
        } else {
            (timed, Ok(None))
        }
    }
}

/// [`rand::Rng::gen_range`] over `0..len`, on the generator that
/// [`rand::thread_rng`] hands out.
///
/// The generator promises a value inside the range it is given, and panics
/// on an empty one, which is why `len` may not be zero. Nothing is claimed
/// about which value comes out. The thread's generator is seeded from the
/// operating system on first use and panics if the system has no entropy to
/// give; no contract can rule that out.
#[verifier::external_body]
fn random_index(len: usize) -> (index: usize)
    requires
        len > 0,
    ensures
        index < len,
{
    rand::Rng::gen_range(&mut rand::thread_rng(), 0..len)
}

/// The state of one animation: which sequence it plays, on what interval,
/// and how it picks frames.
#[derive(Debug)]
pub struct GifResource {
    timer: TriggerState,
    key: String,
    frame: usize,
    policy: SelectionPolicy,
}

impl View for GifResource {
    type V = BindingView;

    closed spec fn view(&self) -> BindingView {
        BindingView {
            key: self.key@,
            frame: self.frame as nat,
            policy: self.policy,
            interval: self.timer.spec_interval() as nat,
            elapsed: self.timer.spec_elapsed() as nat,
        }
    }
}

impl GifResource {
    /// A sequential binding to the sequence under `key`, standing at `frame`,
    /// whose trigger fires every `time` nanoseconds.
    pub fn new(time: u64, key: String, frame: usize) -> (binding: GifResource)
        ensures
            binding@ == (BindingView {
                key: key@,
                frame: frame as nat,
                policy: SelectionPolicy::Sequential,
                interval: time as nat,
                elapsed: 0,
            }),
    {
        GifResource {
            timer: TriggerState::new(time),
            key,
            frame,
            policy: SelectionPolicy::Sequential,
        }
    }

    /// The same binding under another policy.
    pub fn with_policy(self, policy: SelectionPolicy) -> (binding: GifResource)
        ensures
            binding@ == (BindingView { policy, ..self@ }),
    {
        GifResource { timer: self.timer, key: self.key, frame: self.frame, policy }
    }

    pub fn key(&self) -> (key: &String)
        ensures
            key@ == self@.key,
    {
        &self.key
    }

    pub fn frame(&self) -> (frame: usize)
        ensures
            frame == self@.frame,
    {
        self.frame
    }

    pub fn policy(&self) -> (policy: SelectionPolicy)
        ensures
            policy == self@.policy,
    {
        self.policy
    }

    pub fn interval(&self) -> (interval: u64)
        ensures
            interval == self@.interval,
    {
        self.timer.interval()
    }

    pub fn elapsed(&self) -> (elapsed: u64)
        ensures
            elapsed == self@.elapsed,
    {
        self.timer.elapsed()
    }

    /// A fire for which the random source has already spoken: `draw` is the
    /// number it gave, and is read under the random policy only.
    ///
    /// A draw outside the sequence is not trusted: it comes back as
    /// [`GifError::FrameIndexOutOfRange`].
    pub fn on_fire_with(&mut self, store: &Gif, draw: usize) -> (outcome: Result<
        FrameHandle,
        GifError,
    >)
        ensures
            (final(self)@, outcome) == old(self)@.on_fire(store@, draw as int),
    {
        let len: usize = match store.sequence_len(&self.key) {
            None => {
                return Err(GifError::UnknownSequence);
            },
            Some(len) => len,
        };
        match self.policy {
            SelectionPolicy::Sequential => {
                if len == 0 {
                    return Err(GifError::FrameIndexOutOfRange);
                }
                let at: usize = self.frame % len;
                let index: usize = if at + 1 == len {
                    0
                } else {
                    at + 1
                };
                assert(index == (self.frame + 1) % (len as int)) by {
                    lemma_step_wraps(self.frame as int, len as int);
                }
                let outcome = store.get(self.key.clone(), index);
                self.frame = index;
                outcome
            },
            SelectionPolicy::Random => store.get(self.key.clone(), draw),
        }
    }

    /// Resolves the frame to show now that the trigger has fired.
    ///
    /// Succeeds exactly when the store holds the binding's sequence and the
    /// sequence has a frame. The sequential policy steps to the next index,
    /// wrapping at the end; the random policy draws an index and leaves the
    /// binding as it was.
    pub fn on_fire(&mut self, store: &Gif) -> (outcome: Result<FrameHandle, GifError>)
        ensures
            old(self)@.fires_to(final(self)@, store@, outcome),
            old(self)@.policy == SelectionPolicy::Sequential ==> (final(self)@, outcome) == old(
                self,
            )@.on_fire(store@, 0),
            outcome is Ok <==> store@.contains_key(old(self)@.key) && store@[old(
                self,
            )@.key].len() > 0,
    {
        let draw: usize = match self.policy {
            SelectionPolicy::Sequential => 0,
            SelectionPolicy::Random => match store.sequence_len(&self.key) {
                Some(len) => if len > 0 {
                    random_index(len)
                } else {
                    0
                },
                None => 0,
            },
        };
        let ghost before = self@;
        let outcome = self.on_fire_with(store, draw);
        assert(before.admits(store@, draw as int) && (self@, outcome) == before.on_fire(
            store@,
            draw as int,
        ));
        outcome
    }

    /// One scheduling pass: `delta` is the time since the previous pass, in
    /// nanoseconds.
    ///
    /// Gives `Ok(None)` while the trigger has not fired, and what
    /// [`GifResource::on_fire`] gives on the pass in which it does.
    pub fn tick(&mut self, store: &Gif, delta: u64) -> (outcome: Result<
        Option<FrameHandle>,
        GifError,
    >)
        ensures
            old(self)@.ticks_to(final(self)@, store@, delta as int, outcome),
            old(self)@.policy == SelectionPolicy::Sequential ==> (final(self)@, outcome) == old(
                self,
            )@.tick(store@, delta as int, 0),
            outcome is Err <==> fires(
                old(self)@.interval as int,
                old(self)@.elapsed as int,
                delta as int,
            ) && !(store@.contains_key(old(self)@.key) && store@[old(self)@.key].len() > 0),
    {
        let ghost before = self@;
        if self.timer.tick(delta) {
            let ghost timed = self@;
            match self.on_fire(store) {
                Ok(frame) => {
                    proof {
                        let draw = choose|draw: int| #[trigger]
                            timed.admits(store@, draw) && (self@, Ok::<FrameHandle, GifError>(frame))
                                == timed.on_fire(store@, draw);
                        assert(before.admits(store@, draw));
                    }
                    Ok(Some(frame))
                },
                Err(error) => {
                    proof {
                        let draw = choose|draw: int| #[trigger]
                            timed.admits(store@, draw) && (self@, Err::<FrameHandle, GifError>(error))
                                == timed.on_fire(store@, draw);
                        assert(before.admits(store@, draw));
                    }
                    Err(error)
                },
            }
        } else {
            assert(before.admits(store@, 0));
            Ok(None)
        }
    }
}

/// A random fire leaves the binding as it was, and what it resolves is a
/// frame of the binding's own sequence, at an index inside it. It fails only
/// where no such index exists.
pub proof fn lemma_random_fire_stays_in_sequence(
    binding: BindingView,
    after: BindingView,
    table: Map<Seq<char>, Seq<FrameHandle>>,
    outcome: Result<FrameHandle, GifError>,
)
    requires
        binding.policy == SelectionPolicy::Random,
        binding.fires_to(after, table, outcome),
    ensures
        after == binding,
        match outcome {
            Ok(frame) => table.contains_key(binding.key) && exists|index: int|
                0 <= index < table[binding.key].len() && #[trigger] table[binding.key][index]
                    == frame,
            Err(error) => if table.contains_key(binding.key) {
                error == GifError::FrameIndexOutOfRange && table[binding.key].len() == 0
            } else {
                error == GifError::UnknownSequence
            },
        },
{
    let draw = choose|draw: int| #[trigger]
        binding.admits(table, draw) && (after, outcome) == binding.on_fire(table, draw);
    if table.contains_key(binding.key) && table[binding.key].len() > 0 {
        assert(table[binding.key][draw] == outcome->Ok_0);
    }
}

proof fn lemma_step_wraps(frame: int, len: int)
    requires
        0 <= frame,
        0 < len,
    ensures
        (frame + 1) % len == if frame % len + 1 == len {
            0
        } else {
            frame % len + 1
        },
{
    vstd::arithmetic::div_mod::lemma_fundamental_div_mod(frame, len);
    let q = frame / len;
    let r = frame % len;
    if r + 1 == len {
        assert((q + 1) * len == len * q + len) by (nonlinear_arith);
        vstd::arithmetic::div_mod::lemma_fundamental_div_mod_converse(frame + 1, len, q + 1, 0);
    } else {
        assert(q * len == len * q) by (nonlinear_arith);
        vstd::arithmetic::div_mod::lemma_fundamental_div_mod_converse(frame + 1, len, q, r + 1);
    }
}

/// Sequential fires walk the sequence in order, whatever is drawn: the
/// fire that makes it `n` fires since the binding stood at `frame` resolves
/// the frame at `(frame + n) % len` and leaves the binding there. A fresh
/// binding therefore shows frame 1 first, not frame 0.
pub proof fn lemma_sequential_fires_walk_the_sequence(
    binding: BindingView,
    table: Map<Seq<char>, Seq<FrameHandle>>,
    draws: Seq<int>,
)
    requires
        binding.policy == SelectionPolicy::Sequential,
        table.contains_key(binding.key),
        table[binding.key].len() > 0,
        draws.len() > 0,
    ensures
        ({
            let frames = table[binding.key];
            let index = (binding.frame as int + draws.len()) % (frames.len() as int);
            let before = binding.after_fires(table, draws.drop_last());
            &&& 0 <= index < frames.len()
            &&& before.on_fire(table, draws.last()) == (
                BindingView { frame: index as nat, ..binding },
                Ok::<FrameHandle, GifError>(frames[index]),
            )
            &&& binding.after_fires(table, draws) == BindingView { frame: index as nat, ..binding }
        }),
    decreases draws.len(),
{
    let len = table[binding.key].len() as int;
    let earlier = draws.drop_last();
    if earlier.len() > 0 {
        lemma_sequential_fires_walk_the_sequence(binding, table, earlier);
        let fired = earlier.len() as int;
        vstd::arithmetic::div_mod::lemma_add_mod_noop(binding.frame as int + fired, 1, len);
        vstd::arithmetic::div_mod::lemma_mod_twice(binding.frame as int + fired, len);
        vstd::arithmetic::div_mod::lemma_add_mod_noop((binding.frame as int + fired) % len, 1, len);
    } else {
        assert(binding.after_fires(table, earlier) == binding);
    }
    vstd::arithmetic::div_mod::lemma_mod_bound(binding.frame as int + draws.len(), len);
}

} // verus!
