use crate::binding::{BindingView, GifResource, SelectionPolicy};
use crate::error::GifError;
use crate::store::{FrameHandle, Gif};
use vstd::prelude::*;

verus! {

/// A UI element that shows one frame and carries the marker of the screen
/// it belongs to.
#[derive(Clone, Copy, Debug, PartialEq, Eq, Structural)]
pub struct UiElement {
    pub marker: u32,
    pub texture: FrameHandle,
}

/// What one binding decided in one scheduling pass.
#[derive(Clone, Copy, Debug, PartialEq, Eq)]
pub struct FrameUpdate {
    /// The marker of the binding's subscribers.
    pub marker: u32,
    /// `Ok(None)` while the binding's trigger has not fired, the frame to
    /// show when it has, or the store's error if no frame could be resolved.
    pub outcome: Result<Option<FrameHandle>, GifError>,
}

/// An active binding as contracts see it.
pub struct ActiveBinding {
    pub marker: u32,
    pub binding: BindingView,
}

/// Whether a binding is registered under `marker`.
pub open spec fn is_registered(bindings: Seq<ActiveBinding>, marker: u32) -> bool {
    exists|i: int| 0 <= i < bindings.len() && (#[trigger] bindings[i]).marker == marker
}

/// No two bindings share a marker.
pub open spec fn distinct_markers(bindings: Seq<ActiveBinding>) -> bool {
    forall|i: int, j: int|
        0 <= i < j < bindings.len() ==> (#[trigger] bindings[i]).marker != (
        #[trigger] bindings[j]).marker
}

/// The bindings that stay when `marker` is unregistered, in their old order.
pub open spec fn without(bindings: Seq<ActiveBinding>, marker: u32) -> Seq<ActiveBinding> {
    bindings.filter(|binding: ActiveBinding| binding.marker != marker)
}

/// The elements that stay when the screen tagged `marker` is torn down, in
/// their old order.
pub open spec fn despawned(elements: Seq<UiElement>, marker: u32) -> Seq<UiElement> {
    elements.filter(|element: UiElement| element.marker != marker)
}

/// The elements after `frame` was written into every one of them that
/// carries `marker`. All subscribers of a binding show the same frame.
pub open spec fn applied(elements: Seq<UiElement>, marker: u32, frame: FrameHandle) -> Seq<
    UiElement,
> {
    Seq::new(
        elements.len(),
        |i: int|
            if elements[i].marker == marker {
                UiElement { marker, texture: frame }
            } else {
                elements[i]
            },
    )
}

/// The elements after every update that resolved a frame was applied, in
/// order. An update without a frame writes nothing: its subscribers keep the
/// last frame they were given.
pub open spec fn applied_all(elements: Seq<UiElement>, updates: Seq<FrameUpdate>) -> Seq<UiElement>
    decreases updates.len(),
{
    if updates.len() == 0 {
        elements
    } else {
        let before = applied_all(elements, updates.drop_last());
        match updates.last().outcome {
            Ok(Some(frame)) => applied(before, updates.last().marker, frame),
            _ => before,
        }
    }
}

/// The frame that `updates` have for the elements tagged `marker`: that of
/// the last update for the marker that resolved one, if there is any.
pub open spec fn written(updates: Seq<FrameUpdate>, marker: u32) -> Option<FrameHandle>
    decreases updates.len(),
{
    if updates.len() == 0 {
        None
    } else {
        match updates.last().outcome {
            Ok(Some(frame)) if updates.last().marker == marker => Some(frame),
            _ => written(updates.drop_last(), marker),
        }
    }
}

/// The updates that are left when those for `marker` are thrown away.
pub open spec fn purged(updates: Seq<FrameUpdate>, marker: u32) -> Seq<FrameUpdate> {
    updates.filter(|update: FrameUpdate| update.marker != marker)
}

/// An element after `frame` was written into it, or as it was if there is
/// no frame to write.
pub open spec fn shows(element: UiElement, frame: Option<FrameHandle>) -> UiElement {
    match frame {
        Some(frame) => UiElement { marker: element.marker, texture: frame },
        None => element,
    }
}

/// Writes `frame` into every element that carries `marker`.
pub fn apply(frame: FrameHandle, marker: u32, elements: &mut Vec<UiElement>)
    ensures
        final(elements)@ == applied(old(elements)@, marker, frame),
{
    let mut i: usize = 0;
    while i < elements.len()
        invariant
            i <= elements.len(),
            elements.len() == old(elements).len(),
            forall|j: int| 0 <= j < i ==> elements[j] == applied(old(elements)@, marker, frame)[j],
            forall|j: int| i <= j < elements.len() ==> elements[j] == old(elements)[j],
        decreases elements.len() - i,
    {
        if elements[i].marker == marker {
            elements.set(i, UiElement { marker, texture: frame });
        }
        i = i + 1;
    }
    assert(elements@ =~= applied(old(elements)@, marker, frame));
}

/// Applies the updates of one scheduling pass to the elements on screen.
pub fn apply_updates(updates: &Vec<FrameUpdate>, elements: &mut Vec<UiElement>)
    ensures
        final(elements)@ == applied_all(old(elements)@, updates@),
{
    let mut i: usize = 0;
    while i < updates.len()
        invariant
            i <= updates.len(),
            elements@ == applied_all(old(elements)@, updates@.take(i as int)),
        decreases updates.len() - i,
    {
        proof {
            assert(updates@.take(i + 1).drop_last() == updates@.take(i as int));
            assert(updates@.take(i + 1).last() == updates@[i as int]);
        }
        let update = updates[i];
        match update.outcome {
            Ok(Some(frame)) => {
                apply(frame, update.marker, elements);
            },
            _ => {},
        }
        i = i + 1;
    }
    assert(updates@.take(updates.len() as int) == updates@);
}

/// The frame to write into the elements tagged `marker`, going by the
/// updates of a scheduling pass; `None` if they hold no frame for the marker.
pub fn frame_for(updates: &Vec<FrameUpdate>, marker: u32) -> (frame: Option<FrameHandle>)
    ensures
        frame == written(updates@, marker),
{
    let mut found: Option<FrameHandle> = None;
    let mut i: usize = 0;
    assert(updates@.take(0) =~= Seq::<FrameUpdate>::empty());
    while i < updates.len()
        invariant
            i <= updates.len(),
            found == written(updates@.take(i as int), marker),
        decreases updates.len() - i,
    {
        proof {
            assert(updates@.take(i + 1).drop_last() == updates@.take(i as int));
            assert(updates@.take(i + 1).last() == updates@[i as int]);
        }
        let update = updates[i];
        if update.marker == marker {
            match update.outcome {
                Ok(Some(frame)) => {
                    found = Some(frame);
                },
                _ => {},
            }
        }
        i = i + 1;
    }
    assert(updates@.take(updates.len() as int) == updates@);
    found
}

/// What a pass's updates do to the screen, element by element: every
/// element ends up showing the frame the updates have for its marker, and
/// stays as it was where they have none.
pub proof fn lemma_written_is_applied(elements: Seq<UiElement>, updates: Seq<FrameUpdate>)
    ensures
        applied_all(elements, updates).len() == elements.len(),
        forall|j: int|
            0 <= j < elements.len() ==> #[trigger] applied_all(elements, updates)[j] == shows(
                elements[j],
                written(updates, elements[j].marker),
            ),
    decreases updates.len(),
{
    lemma_applied_all_keeps_markers(elements, updates);
    if updates.len() > 0 {
        let earlier = updates.drop_last();
        lemma_written_is_applied(elements, earlier);
        lemma_applied_all_keeps_markers(elements, earlier);
        assert forall|j: int| 0 <= j < elements.len() implies #[trigger] applied_all(
            elements,
            updates,
        )[j] == shows(elements[j], written(updates, elements[j].marker)) by {
            assert(applied_all(elements, earlier)[j].marker == elements[j].marker);
        }
    }
}

/// The frame that a pass resolved for a binding.
pub open spec fn resolved(update: FrameUpdate) -> Option<FrameHandle> {
    match update.outcome {
        Ok(frame) => frame,
        Err(_) => None,
    }
}

/// With one binding per marker, the frame a pass has for a marker is the
/// one the marker's own binding resolved in that pass, and no other
/// binding's.
pub proof fn lemma_own_update_is_written(
    bindings: Seq<ActiveBinding>,
    updates: Seq<FrameUpdate>,
    at: int,
)
    requires
        distinct_markers(bindings),
        updates.len() == bindings.len(),
        forall|i: int| 0 <= i < updates.len() ==> (#[trigger] updates[i]).marker == bindings[i].marker,
        0 <= at < bindings.len(),
    ensures
        written(updates, bindings[at].marker) == resolved(updates[at]),
    decreases updates.len(),
{
    let last = updates.len() - 1;
    let marker = bindings[at].marker;
    let earlier = updates.drop_last();
    if at == last {
        assert forall|i: int| 0 <= i < earlier.len() implies (#[trigger] earlier[i]).marker
            != marker by {
            assert(updates[i].marker == bindings[i].marker);
            assert(bindings[i].marker != bindings[at].marker);
        }
        lemma_no_update_no_frame(earlier, marker);
    } else {
        let fewer = bindings.drop_last();
        assert forall|i: int, j: int| 0 <= i < j < fewer.len() implies (#[trigger] fewer[i]).marker
            != (#[trigger] fewer[j]).marker by {
            assert(bindings[i].marker != bindings[j].marker);
        }
        assert forall|i: int| 0 <= i < earlier.len() implies (#[trigger] earlier[i]).marker
            == fewer[i].marker by {
            assert(updates[i].marker == bindings[i].marker);
        }
        lemma_own_update_is_written(fewer, earlier, at);
        assert(updates[last].marker == bindings[last].marker);
        assert(bindings[at].marker != bindings[last].marker);
    }
}

/// Updates among which none is for `marker` have no frame for it.
pub proof fn lemma_no_update_no_frame(updates: Seq<FrameUpdate>, marker: u32)
    requires
        forall|i: int| 0 <= i < updates.len() ==> (#[trigger] updates[i]).marker != marker,
    ensures
        written(updates, marker) == None::<FrameHandle>,
    decreases updates.len(),
{
    if updates.len() > 0 {
        let earlier = updates.drop_last();
        assert forall|i: int| 0 <= i < earlier.len() implies (#[trigger] earlier[i]).marker
            != marker by {
            assert(updates[i].marker != marker);
        }
        lemma_no_update_no_frame(earlier, marker);
        assert(updates[updates.len() - 1].marker != marker);
    }
}

/// Throwing the updates for one marker away leaves none for it, and leaves
/// every other marker the frame it had.
pub proof fn lemma_purged_updates(updates: Seq<FrameUpdate>, marker: u32, other: u32)
    ensures
        forall|i: int|
            0 <= i < purged(updates, marker).len() ==> (#[trigger] purged(
                updates,
                marker,
            )[i]).marker != marker,
        written(purged(updates, marker), marker) == None::<FrameHandle>,
        other != marker ==> written(purged(updates, marker), other) == written(updates, other),
    decreases updates.len(),
{
    reveal(Seq::filter);
    let stays = |update: FrameUpdate| update.marker != marker;
    assert forall|i: int| 0 <= i < purged(updates, marker).len() implies (#[trigger] purged(
        updates,
        marker,
    )[i]).marker != marker by {
        updates.lemma_filter_pred(stays, i);
    }
    lemma_no_update_no_frame(purged(updates, marker), marker);
    if updates.len() > 0 {
        let earlier = updates.drop_last();
        lemma_purged_updates(earlier, marker, other);
        if updates.last().marker != marker {
            let kept = purged(earlier, marker).push(updates.last());
            assert(kept.drop_last() =~= purged(earlier, marker));
            assert(kept.last() == updates.last());
        }
    }
}

fn purge(updates: &mut Vec<FrameUpdate>, marker: u32)
    ensures
        final(updates)@ == purged(old(updates)@, marker),
{
    let mut kept: Vec<FrameUpdate> = Vec::new();
    let mut i: usize = 0;
    proof {
        reveal(Seq::filter);
    }
    while i < updates.len()
        invariant
            i <= updates.len(),
            kept@ == purged(updates@.take(i as int), marker),
        decreases updates.len() - i,
    {
        proof {
            reveal(Seq::filter);
            assert(updates@.take(i + 1).drop_last() == updates@.take(i as int));
            assert(updates@.take(i + 1).last() == updates@[i as int]);
        }
        if updates[i].marker != marker {
            kept.push(updates[i]);
        }
        i = i + 1;
    }
    assert(updates@.take(updates.len() as int) == updates@);
    *updates = kept;
}

/// Tears down the screen tagged `marker`: takes every element that carries
/// the marker off the screen and keeps the others in their order.
pub fn despawn_screen(marker: u32, elements: &mut Vec<UiElement>)
    ensures
        final(elements)@ == despawned(old(elements)@, marker),
{
    let mut kept: Vec<UiElement> = Vec::new();
    let mut i: usize = 0;
    proof {
        reveal(Seq::filter);
    }
    while i < elements.len()
        invariant
            i <= elements.len(),
            kept@ == despawned(elements@.take(i as int), marker),
        decreases elements.len() - i,
    {
        proof {
            reveal(Seq::filter);
            assert(elements@.take(i + 1).drop_last() == elements@.take(i as int));
            assert(elements@.take(i + 1).last() == elements@[i as int]);
        }
        if elements[i].marker != marker {
            kept.push(elements[i]);
        }
        i = i + 1;
    }
    assert(elements@.take(elements.len() as int) == elements@);
    *elements = kept;
}

/// A screen that was torn down has left no element behind, and took none
/// of another screen's with it.
pub proof fn lemma_despawned_screen_is_gone(elements: Seq<UiElement>, marker: u32)
    ensures
        forall|i: int|
            0 <= i < despawned(elements, marker).len() ==> (#[trigger] despawned(
                elements,
                marker,
            )[i]).marker != marker,
        forall|element: UiElement|
            #[trigger] despawned(elements, marker).contains(element) <==> elements.contains(element)
                && element.marker != marker,
{
    let stays = |element: UiElement| element.marker != marker;
    assert forall|i: int| 0 <= i < despawned(elements, marker).len() implies (#[trigger] despawned(
        elements,
        marker,
    )[i]).marker != marker by {
        elements.lemma_filter_pred(stays, i);
    }
    assert forall|element: UiElement| #[trigger]
        despawned(elements, marker).contains(element) <==> elements.contains(element)
            && element.marker != marker by {
        if despawned(elements, marker).contains(element) {
            elements.lemma_filter_contains_rev(stays, element);
            let at = choose|at: int|
                0 <= at < despawned(elements, marker).len() && despawned(elements, marker)[at]
                    == element;
            elements.lemma_filter_pred(stays, at);
        }
        if elements.contains(element) && element.marker != marker {
            let at = choose|at: int| 0 <= at < elements.len() && elements[at] == element;
            elements.lemma_filter_contains(stays, at);
        }
    }
}

#[derive(Debug)]
struct Registration {
    marker: u32,
    binding: GifResource,
}

spec fn shown(registrations: Seq<Registration>) -> Seq<ActiveBinding> {
    Seq::new(
        registrations.len(),
        |i: int|
            ActiveBinding { marker: registrations[i].marker, binding: registrations[i].binding@ },
    )
}

fn find(registrations: &Vec<Registration>, marker: u32) -> (found: Option<usize>)
    ensures
        match found {
            Some(i) => i < registrations.len() && registrations[i as int].marker == marker,
            None => !is_registered(shown(registrations@), marker),
        },
{
    let mut i: usize = 0;
    while i < registrations.len()
        invariant
            i <= registrations.len(),
            forall|j: int| 0 <= j < i ==> (#[trigger] registrations[j]).marker != marker,
        decreases registrations.len() - i,
    {
        if registrations[i].marker == marker {
            return Some(i);
        }
        i = i + 1;
    }
    assert forall|j: int| 0 <= j < shown(registrations@).len() implies (#[trigger] shown(
        registrations@,
    )[j]).marker != marker by {
        assert(registrations[j].marker != marker);
    }
    None
}

/// Unregistering a marker that is not registered changes nothing.
pub proof fn lemma_without_absent(bindings: Seq<ActiveBinding>, marker: u32)
    requires
        !is_registered(bindings, marker),
    ensures
        without(bindings, marker) == bindings,
    decreases bindings.len(),
{
    reveal(Seq::filter);
    if bindings.len() > 0 {
        let before = bindings.drop_last();
        assert(bindings.last() == bindings[bindings.len() - 1]);
        assert forall|i: int| 0 <= i < before.len() implies (#[trigger] before[i]).marker
            != marker by {
            assert(bindings[i].marker != marker);
        }
        lemma_without_absent(before, marker);
        assert(before.push(bindings.last()) =~= bindings);
    }
}

/// Unregistering takes out the one binding that carries the marker and
/// keeps the others in place.
pub proof fn lemma_without_removes(bindings: Seq<ActiveBinding>, marker: u32, at: int)
    requires
        distinct_markers(bindings),
        0 <= at < bindings.len(),
        bindings[at].marker == marker,
    ensures
        without(bindings, marker) == bindings.remove(at),
        distinct_markers(bindings.remove(at)),
        !is_registered(bindings.remove(at), marker),
    decreases bindings.len(),
{
    reveal(Seq::filter);
    let shorter = bindings.remove(at);
    assert forall|i: int, j: int| 0 <= i < j < shorter.len() implies (#[trigger] shorter[i]).marker
        != (#[trigger] shorter[j]).marker by {
        let from_i = if i < at {
            i
        } else {
            i + 1
        };
        let from_j = if j < at {
            j
        } else {
            j + 1
        };
        assert(shorter[i] == bindings[from_i]);
        assert(shorter[j] == bindings[from_j]);
    }
    assert forall|i: int| 0 <= i < shorter.len() implies (#[trigger] shorter[i]).marker
        != marker by {
        let from = if i < at {
            i
        } else {
            i + 1
        };
        assert(shorter[i] == bindings[from]);
        if from < at {
            assert(bindings[from].marker != bindings[at].marker);
        } else {
            assert(bindings[at].marker != bindings[from].marker);
        }
    }
    let before = bindings.drop_last();
    let last = bindings.len() - 1;
    if at == last {
        assert(before =~= shorter);
        lemma_without_absent(before, marker);
    } else {
        assert(bindings[at].marker != bindings[last].marker);
        assert forall|i: int, j: int| 0 <= i < j < before.len() implies (
        #[trigger] before[i]).marker != (#[trigger] before[j]).marker by {
            assert(bindings[i].marker != bindings[j].marker);
        }
        lemma_without_removes(before, marker, at);
        assert(before.remove(at).push(bindings.last()) =~= shorter);
    }
}

/// Once unregistered, a marker is not registered, and unregistering it
/// again changes nothing.
pub proof fn lemma_unregister_is_idempotent(bindings: Seq<ActiveBinding>, marker: u32)
    ensures
        !is_registered(without(bindings, marker), marker),
        without(without(bindings, marker), marker) == without(bindings, marker),
    decreases bindings.len(),
{
    reveal(Seq::filter);
    if bindings.len() > 0 {
        let before = bindings.drop_last();
        lemma_unregister_is_idempotent(before, marker);
        let kept = without(before, marker);
        if bindings.last().marker != marker {
            let longer = kept.push(bindings.last());
            assert forall|i: int| 0 <= i < longer.len() implies (#[trigger] longer[i]).marker
                != marker by {
                if i < kept.len() {
                    assert(kept[i].marker != marker);
                }
            }
        }
    }
    lemma_without_absent(without(bindings, marker), marker);
}

/// Unregistering leaves every other marker as it was: still registered if
/// it was, and with the same binding.
pub proof fn lemma_unregister_keeps_others(
    bindings: Seq<ActiveBinding>,
    marker: u32,
    other: ActiveBinding,
)
    requires
        other.marker != marker,
    ensures
        without(bindings, marker).contains(other) <==> bindings.contains(other),
    decreases bindings.len(),
{
    reveal(Seq::filter);
    if bindings.len() > 0 {
        let before = bindings.drop_last();
        let last = bindings.last();
        lemma_unregister_keeps_others(before, marker, other);
        let kept = without(before, marker);
        if bindings.contains(other) {
            let i = choose|i: int| 0 <= i < bindings.len() && bindings[i] == other;
            if i < before.len() {
                assert(before[i] == other);
                assert(before.contains(other));
                let k = choose|k: int| 0 <= k < kept.len() && kept[k] == other;
                if last.marker != marker {
                    assert(kept.push(last)[k] == other);
                }
            } else {
                assert(kept.push(last)[kept.len() as int] == other);
            }
        }
        if without(bindings, marker).contains(other) {
            let result = without(bindings, marker);
            let k = choose|k: int| 0 <= k < result.len() && result[k] == other;
            if last.marker != marker && k == kept.len() {
                assert(bindings[bindings.len() - 1] == other);
            } else {
                assert(kept[k] == other);
                assert(kept.contains(other));
                let i = choose|i: int| 0 <= i < before.len() && before[i] == other;
                assert(bindings[i] == other);
            }
        }
    }
}

/// Updates that carry no frame for `marker` leave the elements tagged with
/// it untouched.
pub proof fn lemma_no_update_no_write(
    elements: Seq<UiElement>,
    updates: Seq<FrameUpdate>,
    marker: u32,
)
    requires
        forall|i: int| 0 <= i < updates.len() ==> (#[trigger] updates[i]).marker != marker,
    ensures
        applied_all(elements, updates).len() == elements.len(),
        forall|j: int|
            0 <= j < elements.len() && elements[j].marker == marker ==> #[trigger] applied_all(
                elements,
                updates,
            )[j] == elements[j],
    decreases updates.len(),
{
    lemma_applied_all_keeps_markers(elements, updates);
    if updates.len() > 0 {
        let earlier = updates.drop_last();
        assert forall|i: int| 0 <= i < earlier.len() implies (#[trigger] earlier[i]).marker
            != marker by {
            assert(updates[i].marker != marker);
        }
        lemma_no_update_no_write(elements, earlier, marker);
        lemma_applied_all_keeps_markers(elements, earlier);
        assert(updates[updates.len() - 1].marker != marker);
    }
}

/// After a marker was unregistered, a scheduling pass writes nothing into
/// the elements that carry it: a pass gives one update per binding that is
/// still active, and none of those is for the marker.
pub proof fn lemma_unregistered_subscribers_keep_frames(
    bindings: Seq<ActiveBinding>,
    marker: u32,
    updates: Seq<FrameUpdate>,
    elements: Seq<UiElement>,
)
    requires
        updates.len() == without(bindings, marker).len(),
        forall|i: int|
            0 <= i < updates.len() ==> (#[trigger] updates[i]).marker == without(
                bindings,
                marker,
            )[i].marker,
    ensures
        applied_all(elements, updates).len() == elements.len(),
        forall|j: int|
            0 <= j < elements.len() && elements[j].marker == marker ==> #[trigger] applied_all(
                elements,
                updates,
            )[j] == elements[j],
{
    lemma_unregister_is_idempotent(bindings, marker);
    let active = without(bindings, marker);
    assert forall|i: int| 0 <= i < updates.len() implies (#[trigger] updates[i]).marker
        != marker by {
        assert(active[i].marker != marker);
    }
    lemma_no_update_no_write(elements, updates, marker);
}

/// Applying updates neither adds nor removes elements, and never changes
/// what an element is tagged with.
pub proof fn lemma_applied_all_keeps_markers(elements: Seq<UiElement>, updates: Seq<FrameUpdate>)
    ensures
        applied_all(elements, updates).len() == elements.len(),
        forall|j: int|
            0 <= j < elements.len() ==> (#[trigger] applied_all(elements, updates)[j]).marker
                == elements[j].marker,
    decreases updates.len(),
{
    if updates.len() > 0 {
        lemma_applied_all_keeps_markers(elements, updates.drop_last());
    }
}

/// The registry of active bindings, one per screen marker.
///
/// A binding is active from the moment its screen registers it until the
/// screen unregisters it; only active bindings are ticked. The registry
/// keeps what the last pass decided until the next pass, so that the frames
/// can be written after the pass; what it keeps for a marker goes when the
/// marker is unregistered.
#[derive(Debug)]
pub struct GifPlugin {
    registrations: Vec<Registration>,
    pending: Vec<FrameUpdate>,
}

impl View for GifPlugin {
    type V = Seq<ActiveBinding>;

    /// The active bindings, in the order they were registered.
    closed spec fn view(&self) -> Seq<ActiveBinding> {
        shown(self.registrations@)
    }
}

impl GifPlugin {
    #[verifier::type_invariant]
    spec fn one_binding_per_marker(&self) -> bool {
        distinct_markers(shown(self.registrations@))
    }

    /// The updates of the last pass that are still to be written.
    pub closed spec fn spec_pending(&self) -> Seq<FrameUpdate> {
        self.pending@
    }

    /// A registry with no active binding and nothing to write.
    pub fn new() -> (plugin: GifPlugin)
        ensures
            plugin@ == Seq::<ActiveBinding>::empty(),
            plugin.spec_pending() == Seq::<FrameUpdate>::empty(),
            distinct_markers(plugin@),
    {
        let plugin = GifPlugin { registrations: Vec::new(), pending: Vec::new() };
        assert(shown(plugin.registrations@) =~= Seq::<ActiveBinding>::empty());
        plugin
    }

    fn take(&mut self) -> (taken: (Vec<Registration>, Vec<FrameUpdate>))
        ensures
            shown(taken.0@) == old(self)@,
            distinct_markers(shown(taken.0@)),
            taken.1@ == old(self).spec_pending(),
    {
        proof {
            use_type_invariant(&*self);
        }
        let mut taken = GifPlugin::new();
        core::mem::swap(self, &mut taken);
        let GifPlugin { registrations, pending } = taken;
        (registrations, pending)
    }

    /// How many bindings are active.
    pub fn len(&self) -> (len: usize)
        ensures
            len == self@.len(),
    {
        self.registrations.len()
    }

    /// Whether a binding is active under `marker`.
    pub fn is_active(&self, marker: u32) -> (active: bool)
        ensures
            active == is_registered(self@, marker),
    {
        match find(&self.registrations, marker) {
            Some(at) => {
                assert(shown(self.registrations@)[at as int].marker == marker);
                true
            },
            None => false,
        }
    }

    /// A copy of the updates of the last pass that are still to be written.
    pub fn pending(&self) -> (pending: Vec<FrameUpdate>)
        ensures
            pending@ == self.spec_pending(),
    {
        let mut pending: Vec<FrameUpdate> = Vec::new();
        let mut i: usize = 0;
        while i < self.pending.len()
            invariant
                i <= self.pending.len(),
                pending.len() == i,
                forall|j: int| 0 <= j < i ==> pending[j] == self.pending[j],
            decreases self.pending.len() - i,
        {
            pending.push(self.pending[i]);
            i = i + 1;
        }
        assert(pending@ =~= self.pending@);
        pending
    }

    /// The frame that is still to be written into the elements tagged
    /// `marker`; `None` if the last pass resolved none for the marker, or if
    /// the marker was unregistered since.
    pub fn pending_frame(&self, marker: u32) -> (frame: Option<FrameHandle>)
        ensures
            frame == written(self.spec_pending(), marker),
    {
        frame_for(&self.pending, marker)
    }

    /// Activates a binding for the screen tagged `marker`: it plays the
    /// sequence under `key`, starts before its first frame, and fires every
    /// `interval` nanoseconds.
    ///
    /// A binding already active under the marker is replaced, so that a
    /// screen entered again starts afresh; what the replaced binding still
    /// had to write is thrown away with it.
    pub fn register_binding(
        &mut self,
        marker: u32,
        key: String,
        policy: SelectionPolicy,
        interval: u64,
    )
        ensures
            final(self)@ == without(old(self)@, marker).push(
                ActiveBinding {
                    marker,
                    binding: BindingView {
                        key: key@,
                        frame: 0,
                        policy,
                        interval: interval as nat,
                        elapsed: 0,
                    },
                },
            ),
            final(self).spec_pending() == purged(old(self).spec_pending(), marker),
            distinct_markers(final(self)@),
    {
        let (mut registrations, mut pending) = self.take();
        remove(&mut registrations, marker);
        purge(&mut pending, marker);
        let binding = GifResource::new(interval, key, 0).with_policy(policy);
        let ghost before = shown(registrations@);
        let ghost added = ActiveBinding { marker, binding: binding@ };
        registrations.push(Registration { marker, binding });
        proof {
            let after = shown(registrations@);
            assert(after =~= before.push(added));
            assert forall|i: int, j: int| 0 <= i < j < after.len() implies (#[trigger] after[i]).marker
                != (#[trigger] after[j]).marker by {
                if j == before.len() {
                    assert(before[i].marker != marker);
                } else {
                    assert(before[i].marker != before[j].marker);
                }
            }
        }
        *self = GifPlugin { registrations, pending };
    }

    /// Deactivates the binding of the screen tagged `marker`, if one is
    /// active. From then on no pass resolves a frame for it, and a frame that
    /// the last pass resolved for it and that was not written yet never is.
    pub fn unregister_binding(&mut self, marker: u32)
        ensures
            final(self)@ == without(old(self)@, marker),
            !is_registered(final(self)@, marker),
            final(self).spec_pending() == purged(old(self).spec_pending(), marker),
            forall|i: int|
                #![trigger final(self).spec_pending()[i]]
                0 <= i < final(self).spec_pending().len() ==> final(self).spec_pending()[i].marker
                    != marker,
            written(final(self).spec_pending(), marker) == None::<FrameHandle>,
            distinct_markers(final(self)@),
    {
        let (mut registrations, mut pending) = self.take();
        remove(&mut registrations, marker);
        proof {
            lemma_purged_updates(pending@, marker, marker);
        }
        purge(&mut pending, marker);
        *self = GifPlugin { registrations, pending };
    }

    /// One scheduling pass over every active binding: `delta` is the time
    /// since the previous pass, in nanoseconds.
    ///
    /// Gives one update per active binding, in registration order, and
    /// keeps the same updates as what is still to be written. Each binding
    /// is ticked on its own: an error in one does not stop the others.
    pub fn tick(&mut self, store: &Gif, delta: u64) -> (updates: Vec<FrameUpdate>)
        ensures
            final(self)@.len() == old(self)@.len(),
            updates@.len() == old(self)@.len(),
            forall|i: int|
                #![trigger updates@[i]]
                #![trigger final(self)@[i]]
                0 <= i < old(self)@.len() ==> {
                    &&& final(self)@[i].marker == old(self)@[i].marker
                    &&& updates@[i].marker == old(self)@[i].marker
                    &&& old(self)@[i].binding.ticks_to(
                        final(self)@[i].binding,
                        store@,
                        delta as int,
                        updates@[i].outcome,
                    )
                },
            final(self).spec_pending() == updates@,
            distinct_markers(final(self)@),
    {
        let (mut registrations, _) = self.take();
        let ghost before = shown(registrations@);
        let mut updates: Vec<FrameUpdate> = Vec::new();
        let mut pending: Vec<FrameUpdate> = Vec::new();
        let mut i: usize = 0;
        while i < registrations.len()
            invariant
                i <= registrations.len(),
                registrations.len() == before.len(),
                updates.len() == i,
                pending@ == updates@,
                forall|j: int|
                    0 <= j < registrations.len() ==> (#[trigger] registrations[j]).marker
                        == before[j].marker,
                forall|j: int|
                    i <= j < registrations.len() ==> (#[trigger] registrations[j]).binding@
                        == before[j].binding,
                forall|j: int|
                    0 <= j < i ==> (#[trigger] updates[j]).marker == before[j].marker
                        && before[j].binding.ticks_to(
                        registrations[j].binding@,
                        store@,
                        delta as int,
                        updates[j].outcome,
                    ),
            decreases registrations.len() - i,
        {
            let marker: u32 = registrations[i].marker;
            let outcome = registrations[i].binding.tick(store, delta);
            updates.push(FrameUpdate { marker, outcome });
            pending.push(FrameUpdate { marker, outcome });
            i = i + 1;
        }
        proof {
            let after = shown(registrations@);
            assert forall|j: int, k: int| 0 <= j < k < after.len() implies (#[trigger] after[j]).marker
                != (#[trigger] after[k]).marker by {
                assert(before[j].marker != before[k].marker);
            }
        }
        *self = GifPlugin { registrations, pending };
        updates
    }

    /// One scheduling pass from trigger to screen: ticks every active
    /// binding, then writes each frame that was resolved into the elements
    /// that carry the binding's marker at this moment.
    ///
    /// Elements whose marker has no active binding are left as they are, and
    /// so are the subscribers of a binding that did not fire or could not
    /// resolve a frame.
    pub fn update(&mut self, store: &Gif, delta: u64, elements: &mut Vec<UiElement>) -> (updates:
        Vec<FrameUpdate>)
        ensures
            final(self)@.len() == old(self)@.len(),
            updates@.len() == old(self)@.len(),
            forall|i: int|
                #![trigger updates@[i]]
                #![trigger final(self)@[i]]
                0 <= i < old(self)@.len() ==> {
                    &&& final(self)@[i].marker == old(self)@[i].marker
                    &&& updates@[i].marker == old(self)@[i].marker
                    &&& old(self)@[i].binding.ticks_to(
                        final(self)@[i].binding,
                        store@,
                        delta as int,
                        updates@[i].outcome,
                    )
                },
            final(self).spec_pending() == updates@,
            distinct_markers(final(self)@),
            final(elements)@ == applied_all(old(elements)@, updates@),
    {
        let updates = self.tick(store, delta);
        apply_updates(&updates, elements);
        updates
    }
}

impl Default for GifPlugin {
    fn default() -> (plugin: GifPlugin)
        ensures
            plugin@ == Seq::<ActiveBinding>::empty(),
            plugin.spec_pending() == Seq::<FrameUpdate>::empty(),
            distinct_markers(plugin@),
    {
        GifPlugin::new()
    }
}

fn remove(registrations: &mut Vec<Registration>, marker: u32)
    requires
        distinct_markers(shown(old(registrations)@)),
    ensures
        distinct_markers(shown(final(registrations)@)),
        shown(final(registrations)@) == without(shown(old(registrations)@), marker),
        !is_registered(shown(final(registrations)@), marker),
{
    match find(registrations, marker) {
        Some(at) => {
            proof {
                lemma_without_removes(shown(registrations@), marker, at as int);
            }
            let ghost before = shown(registrations@);
            registrations.remove(at);
            assert(shown(registrations@) =~= before.remove(at as int));
        },
        None => {
            proof {
                lemma_without_absent(shown(registrations@), marker);
            }
        },
    }
}

} // verus!
