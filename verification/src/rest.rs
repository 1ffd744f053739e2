//! What becomes of a window that has come to rest.
use vstd::prelude::*;

use crate::effect::{CacheAction, EffectView};
use crate::geometry::{LogicalPosition, LogicalSize, PhysicalPosition};
use crate::member::{GroupMemberKind, MemberView};
use crate::outcome::{after_run, is_run, stored};
use crate::persist::{
    are_replaceable, is_keyed, law_stored_surfaces_are_found, lemma_writing_keeps, originals_of,
    rollback, surface_members, written,
};
use crate::resize::step_of;
use crate::runtime::RuntimeView;
use crate::settle::{
    detached_surface, ended_drag, pinning, runtime_settled, settled, settlement_of, size_steps,
    snapping_back, storing, FollowUp, PositionSettlement, SettlingView,
};
use crate::surface::{NoteView, SurfaceView, TimerView};
use crate::transaction::{resolved, Event, Registers, StepView, UndoView};
use crate::world::{
    keeps, law_unhindered_operation_is_done, lemma_keeps_add, performed, Promise, Spot, World,
};

verus! {

/// Whether two points are no farther apart than `reach`, from left to right and from
/// top to bottom.
pub open spec fn is_within(ax: int, ay: int, bx: int, by: int, reach: int) -> bool {
    &&& bx - ax <= reach && ax - bx <= reach
    &&& by - ay <= reach && ay - by <= reach
}

/// Whether what is stored of a window is `old` but for its place, which is
/// `position`, and, if it is an unfolded note, its size, which is `size` brought to
/// the least one.
pub open spec fn is_dropped(
    old: SurfaceView,
    new: SurfaceView,
    position: LogicalPosition,
    size: LogicalSize,
) -> bool {
    match (old, new) {
        (SurfaceView::Note(old), SurfaceView::Note(new)) => {
            &&& new.x == position.x && new.y == position.y
            &&& old.collapsed ==> new.expanded_width == old.expanded_width && new.expanded_height
                == old.expanded_height
            &&& !old.collapsed ==> {
                &&& size.width >= 150 ==> new.expanded_width == size.width
                &&& size.width < 150 ==> new.expanded_width == 150
                &&& size.height >= 80 ==> new.expanded_height == size.height
                &&& size.height < 80 ==> new.expanded_height == 80
            }
            &&& (NoteView {
                x: old.x,
                y: old.y,
                expanded_width: old.expanded_width,
                expanded_height: old.expanded_height,
                ..new
            }) == old
        },
        (SurfaceView::Timer(old), SurfaceView::Timer(new)) => {
            &&& new.x == position.x && new.y == position.y
            &&& new.id == old.id && new.collapsed == old.collapsed && new.pinned == old.pinned
                && new.countdown == old.countdown
        },
        _ => false,
    }
}

/// A window that is taken out of its group is stored where it was dropped, be it a
/// note or a timer.
pub proof fn law_detached_window_is_stored_where_dropped(
    previous: SurfaceView,
    position: LogicalPosition,
    size: LogicalSize,
)
    ensures
        is_dropped(previous, detached_surface(previous, position, size), position, size),
{
}

/// A window leaves its group exactly if it is in one and was dragged more than four
/// pixels, from left to right or from top to bottom.
pub proof fn law_drags_over_four_pixels_detach(
    request: SettlingView,
    origin: Option<PhysicalPosition>,
    settlement: PositionSettlement,
)
    ensures
        settlement_of(request, origin, settlement).1 == FollowUp::Detach <==> {
            &&& origin is Some
            &&& request.grouped
            &&& !is_within(
                request.drag_start.x as int,
                request.drag_start.y as int,
                request.position.x as int,
                request.position.y as int,
                4,
            )
        },
{
}

/// A position is taken to be the one that was asked for exactly if one was asked for
/// and it is no more than two pixels away from it. A window that is elsewhere was
/// moved by something else, as was one that is not where it is stored while no
/// position was asked for.
pub proof fn law_positions_within_two_pixels_are_adopted(
    pending: Map<Seq<char>, PhysicalPosition>,
    key: Seq<char>,
    observed: PhysicalPosition,
    observed_logical: LogicalPosition,
    durable: LogicalPosition,
)
    ensures
        ({
            let asked = pending[key];
            let near = is_within(
                asked.x as int,
                asked.y as int,
                observed.x as int,
                observed.y as int,
                2,
            );
            match settled(pending, key, observed, observed_logical, durable) {
                PositionSettlement::AdoptProgrammatic(adopted) => {
                    &&& pending.contains_key(key)
                    &&& near
                    &&& adopted == observed
                },
                PositionSettlement::ExternalMove => if pending.contains_key(key) {
                    !near
                } else {
                    observed_logical.x != durable.x || observed_logical.y != durable.y
                },
                PositionSettlement::Unchanged => {
                    &&& !pending.contains_key(key)
                    &&& observed_logical.x == durable.x && observed_logical.y == durable.y
                },
            }
        }),
{
}

/// A window of a group that rests with another size than the one it is stored with is
/// resized to it, brought to the least size, unless it is folded or leaves its group;
/// no other window is resized.
pub proof fn law_found_size_is_given_to_the_group(
    request: SettlingView,
    origin: Option<PhysicalPosition>,
    settlement: PositionSettlement,
)
    requires
        settlement_of(request, origin, settlement).1 != FollowUp::Detach,
    ensures
        ({
            let (width, height, folded) = match request.current {
                SurfaceView::Note(note) => (
                    if note.expanded_width < 150 {
                        150
                    } else {
                        note.expanded_width
                    },
                    if note.expanded_height < 80 {
                        80
                    } else {
                        note.expanded_height
                    },
                    note.collapsed,
                ),
                SurfaceView::Timer(timer) => (300, 176, timer.collapsed),
            };
            match settlement_of(request, origin, settlement).1 {
                FollowUp::Resize(target) => {
                    &&& request.grouped
                    &&& !folded
                    &&& request.size.width != width || request.size.height != height
                    &&& request.size.width >= 150 ==> target.width == request.size.width
                    &&& request.size.width < 150 ==> target.width == 150
                    &&& request.size.height >= 80 ==> target.height == request.size.height
                    &&& request.size.height < 80 ==> target.height == 80
                },
                _ => !request.grouped || folded || (request.size.width == width
                    && request.size.height == height),
            }
        }),
{
}

/// The promise that ends in one world.
spec fn ends(end: World) -> Promise {
    Promise {
        done: |w: World| w == end,
        home: |w: World| true,
        exempt: |effect: EffectView| false,
    }
}

/// Storing one surface that is known stores it.
proof fn lemma_storing_keeps(surface: SurfaceView, former: SurfaceView, before: World)
    requires
        surface.member() == former.member(),
        stored(before, former.member()) == Some(former),
        is_keyed(before.store.notes, before.timers),
    ensures
        keeps(storing(surface, former), 0, before, ends(written(before, seq![surface]))),
        stored(written(before, seq![surface]), surface.member()) == Some(surface),
        forall|m: MemberView|
            m != surface.member() ==> #[trigger] stored(written(before, seq![surface]), m)
                == stored(before, m),
        is_keyed(written(before, seq![surface]).store.notes, written(before, seq![surface]).timers),
{
    let member = former.member();
    let replacements = seq![surface];
    let none = Seq::<UndoView>::empty();
    assert(surface_members(replacements) =~= seq![member]);
    assert(originals_of(before.store.notes, before.timers, replacements) =~= seq![former]);
    assert(are_replaceable(before, replacements)) by {
        assert(surface_members(replacements)[0] == member);
    }
    assert(rollback(seq![former]) + none =~= rollback(seq![former]));
    lemma_writing_keeps(before, replacements, none, ends(written(before, seq![surface])));
    law_stored_surfaces_are_found(before, replacements, member);
    assert(replacements[0].member() == member);
    assert forall|m: MemberView| m != member implies #[trigger] stored(
        written(before, replacements),
        m,
    ) == stored(before, m) by {
        law_stored_surfaces_are_found(before, replacements, m);
        assert(!seq![member].contains(m));
    }
    let after = written(before, replacements);
    assert forall|id: Seq<char>| #[trigger] after.store.notes.contains_key(id) implies
        after.store.notes[id].id == id by {
        let m = MemberView { kind: GroupMemberKind::Note, id };
        assert(stored(after, m) == stored(before, m) || m == member);
    }
    assert forall|id: Seq<char>| #[trigger] after.timers.contains_key(id) implies
        after.timers[id].id == id by {
        let m = MemberView { kind: GroupMemberKind::Timer, id };
        assert(stored(after, m) == stored(before, m) || m == member);
    }
}

/// A window in no group that was dragged is stored where it was dropped, an unfolded
/// note with the size it was dropped with. Nothing else changes.
pub proof fn law_dropped_window_is_stored_where_dropped(
    request: SettlingView,
    origin: PhysicalPosition,
    settlement: PositionSettlement,
    before: World,
    events: Seq<Event>,
)
    requires
        !request.grouped,
        request.current.member() == request.member,
        stored(before, request.member) == Some(request.current),
        is_keyed(before.store.notes, before.timers),
        is_run(settlement_of(request, Some(origin), settlement).0, before, events),
    ensures
        ({
            let after = after_run(
                settlement_of(request, Some(origin), settlement).0,
                before,
                events,
            );
            &&& stored(after, request.member) matches Some(new)
            &&& is_dropped(request.current, new, request.position, request.size)
            &&& forall|m: MemberView|
                m != request.member ==> #[trigger] stored(after, m) == stored(before, m)
            &&& after.store.groups == before.store.groups
            &&& after.windows == before.windows
            &&& after.geometries == before.geometries
        }),
{
    let steps = settlement_of(request, Some(origin), settlement).0;
    let dropped = request.current.at(request.position.x, request.position.y).seen_with_size(
        request.size,
    );
    lemma_storing_keeps(dropped, request.current, before);
    law_unhindered_operation_is_done(steps, before, ends(written(before, seq![dropped])), events);
}

/// A window that has gone where it was asked to go, and has the size it is stored
/// with, is stored at the place where it is found, and that place is cached. Nothing
/// else changes.
pub proof fn law_adopted_place_is_stored(
    request: SettlingView,
    observed: PhysicalPosition,
    before: World,
    events: Seq<Event>,
)
    requires
        request.current.member() == request.member,
        stored(before, request.member) == Some(request.current),
        is_keyed(before.store.notes, before.timers),
        request.grouped || match request.current {
            SurfaceView::Note(note) => note.collapsed || (request.size.width == note.expanded_width
                && request.size.height == note.expanded_height),
            SurfaceView::Timer(_) => true,
        },
        is_run(
            settlement_of(request, None, PositionSettlement::AdoptProgrammatic(observed)).0,
            before,
            events,
        ),
    ensures
        ({
            let after = after_run(
                settlement_of(request, None, PositionSettlement::AdoptProgrammatic(observed)).0,
                before,
                events,
            );
            &&& match (request.current, stored(after, request.member)) {
                (SurfaceView::Note(old), Some(SurfaceView::Note(new))) => new == NoteView {
                    x: request.position.x,
                    y: request.position.y,
                    ..old
                },
                (SurfaceView::Timer(old), Some(SurfaceView::Timer(new))) => new
                    == TimerView {
                    x: request.position.x,
                    y: request.position.y,
                    ..old
                },
                _ => false,
            }
            &&& forall|m: MemberView|
                m != request.member ==> #[trigger] stored(after, m) == stored(before, m)
            &&& after.geometries[request.member.id].position == observed
            &&& after.geometries[request.member.id].size
                == before.geometries[request.member.id].size
            &&& after.store.groups == before.store.groups
            &&& after.windows == before.windows
        }),
{
    let settlement = PositionSettlement::AdoptProgrammatic(observed);
    let steps = settlement_of(request, None, settlement).0;
    let moved = request.current.at(request.position.x, request.position.y);
    let cache = step_of(
        EffectView::Cache(
            request.member,
            CacheAction::Position(observed),
        ),
        Seq::empty(),
    );
    let kept = if request.position != request.current.position() {
        written(before, seq![moved])
    } else {
        before
    };
    let end = performed(kept, cache.effect);
    let promise = ends(end);
    assert(keeps(seq![cache], 0, kept, promise)) by {
        assert forall|registers: Registers|
            keeps(
                seq![cache],
                1,
                performed(kept, #[trigger] resolved(cache.effect, registers)),
                promise,
            ) by {}
    }
    if request.position != request.current.position() {
        lemma_storing_keeps(moved, request.current, before);
        let first = storing(moved, request.current);
        lemma_keeps_add(first, seq![cache], 0, before, ends(written(before, seq![moved])), promise);
        assert(steps =~= first + seq![cache]);
    } else {
        assert(steps =~= seq![cache]);
    }
    law_unhindered_operation_is_done(steps, before, promise, events);
    let after = after_run(steps, before, events);
    assert forall|m: MemberView| #[trigger] stored(after, m) == stored(kept, m) by {}
}

/// Three steps that depend on nothing that is read lead where their effects lead.
proof fn lemma_three_steps(steps: Seq<StepView>, before: World)
    requires
        steps.len() == 3,
        forall|i: int|
            0 <= i < 3 ==> !(#[trigger] steps[i]).only_if_moving,
        forall|i: int, registers: Registers|
            0 <= i < 3 ==> #[trigger] resolved(steps[i].effect, registers) == steps[i].effect,
    ensures
        keeps(
            steps,
            0,
            before,
            ends(
                performed(
                    performed(performed(before, steps[0].effect), steps[1].effect),
                    steps[2].effect,
                ),
            ),
        ),
{
    let one = performed(before, steps[0].effect);
    let two = performed(one, steps[1].effect);
    let three = performed(two, steps[2].effect);
    let promise = ends(three);
    assert(keeps(steps, 3, three, promise));
    assert(keeps(steps, 2, two, promise)) by {
        assert forall|registers: Registers|
            keeps(
                steps,
                3,
                performed(two, #[trigger] resolved(steps[2].effect, registers)),
                promise,
            ) by {}
    }
    assert(keeps(steps, 1, one, promise)) by {
        assert forall|registers: Registers|
            keeps(
                steps,
                2,
                performed(one, #[trigger] resolved(steps[1].effect, registers)),
                promise,
            ) by {}
    }
    assert forall|registers: Registers|
        keeps(
            steps,
            1,
            performed(before, #[trigger] resolved(steps[0].effect, registers)),
            promise,
        ) by {}
}

/// A window of a group that was dragged no more than four pixels ends where its drag
/// started, and that place is cached and awaited; nothing that is stored changes.
pub proof fn law_short_drag_ends_where_it_started(
    request: SettlingView,
    origin: PhysicalPosition,
    settlement: PositionSettlement,
    before: World,
    events: Seq<Event>,
)
    requires
        request.grouped,
        is_within(
            request.drag_start.x as int,
            request.drag_start.y as int,
            request.position.x as int,
            request.position.y as int,
            4,
        ),
        request.geometry.position != origin,
        is_run(settlement_of(request, Some(origin), settlement).0, before, events),
    ensures
        ({
            let after = after_run(
                settlement_of(request, Some(origin), settlement).0,
                before,
                events,
            );
            let label = request.member.window_label();
            &&& after.windows[label].position == Spot::Physical(origin)
            &&& after.windows[label].size == before.windows[label].size
            &&& after.geometries[request.member.id].position == origin
            &&& after.geometries[request.member.id].size
                == before.geometries[request.member.id].size
            &&& after.runtime.pending.contains_key(label)
            &&& after.runtime.pending[label] == origin
            &&& after.store == before.store
            &&& after.timers == before.timers
        }),
{
    let steps = settlement_of(request, Some(origin), settlement).0;
    assert(steps =~= snapping_back(request.member, origin));
    lemma_three_steps(steps, before);
    let end = performed(
        performed(performed(before, steps[0].effect), steps[1].effect),
        steps[2].effect,
    );
    law_unhindered_operation_is_done(steps, before, ends(end), events);
}

/// A pinned window that something else moved ends where it is stored to be, and
/// `home`, which is that place in device pixels, is cached and awaited. What is
/// stored of it keeps its place.
pub proof fn law_pinned_window_ends_where_it_is_stored(
    request: SettlingView,
    before: World,
    events: Seq<Event>,
)
    requires
        request.current.member() == request.member,
        stored(before, request.member) == Some(request.current),
        is_keyed(before.store.notes, before.timers),
        match request.current {
            SurfaceView::Note(note) => note.pinned,
            SurfaceView::Timer(timer) => timer.pinned,
        },
        is_run(
            settlement_of(request, None, PositionSettlement::ExternalMove).0,
            before,
            events,
        ),
    ensures
        ({
            let after = after_run(
                settlement_of(request, None, PositionSettlement::ExternalMove).0,
                before,
                events,
            );
            let label = request.member.window_label();
            let place = match request.current {
                SurfaceView::Note(note) => LogicalPosition { x: note.x, y: note.y },
                SurfaceView::Timer(timer) => LogicalPosition { x: timer.x, y: timer.y },
            };
            &&& after.windows[label].position == Spot::Logical(place)
            &&& after.geometries[request.member.id].position == request.home
            &&& after.runtime.pending.contains_key(label)
            &&& after.runtime.pending[label] == request.home
            &&& stored(after, request.member) matches Some(new)
            &&& new == request.current || is_dropped(request.current, new, place, request.size)
            &&& forall|m: MemberView|
                m != request.member ==> #[trigger] stored(after, m) == stored(before, m)
        }),
{
    let steps = settlement_of(request, None, PositionSettlement::ExternalMove).0;
    let first = pinning(request);
    let second = size_steps(request, request.current).0;
    assert(steps == first + second);
    lemma_three_steps(first, before);
    let middle = performed(
        performed(performed(before, first[0].effect), first[1].effect),
        first[2].effect,
    );
    assert forall|m: MemberView| #[trigger] stored(middle, m) == stored(before, m) by {}
    lemma_size_stored(request, middle);
    let end = size_stored(request, middle);
    lemma_keeps_add(first, second, 0, before, ends(middle), ends(end));
    law_unhindered_operation_is_done(steps, before, ends(end), events);
}

/// The world after the size of a window in no group was stored.
spec fn size_stored(request: SettlingView, before: World) -> World {
    match request.current {
        SurfaceView::Note(note) => if !request.grouped && !note.collapsed && (request.size.width
            != note.expanded_width || request.size.height != note.expanded_height) {
            written(before, seq![request.current.seen_with_size(request.size)])
        } else {
            before
        },
        SurfaceView::Timer(_) => before,
    }
}

proof fn lemma_size_stored(request: SettlingView, before: World)
    requires
        request.current.member() == request.member,
        stored(before, request.member) == Some(request.current),
        is_keyed(before.store.notes, before.timers),
    ensures
        keeps(
            size_steps(request, request.current).0,
            0,
            before,
            ends(size_stored(request, before)),
        ),
        stored(size_stored(request, before), request.member) == Some(
            if size_stored(request, before) == before {
                request.current
            } else {
                request.current.seen_with_size(request.size)
            },
        ),
        forall|m: MemberView|
            m != request.member ==> #[trigger] stored(size_stored(request, before), m) == stored(
                before,
                m,
            ),
{
    let sized = request.current.seen_with_size(request.size);
    lemma_storing_keeps(sized, request.current, before);
}

/// An unfolded note in no group that rests where it is stored, with another size than
/// it is stored with, is stored with that size. Nothing else changes.
pub proof fn law_found_size_is_stored(
    request: SettlingView,
    before: World,
    events: Seq<Event>,
)
    requires
        !request.grouped,
        request.current.member() == request.member,
        stored(before, request.member) == Some(request.current),
        is_keyed(before.store.notes, before.timers),
        request.current matches SurfaceView::Note(note) && !note.collapsed && (
        request.size.width != note.expanded_width || request.size.height != note.expanded_height),
        is_run(
            settlement_of(request, None, PositionSettlement::Unchanged).0,
            before,
            events,
        ),
    ensures
        ({
            let after = after_run(
                settlement_of(request, None, PositionSettlement::Unchanged).0,
                before,
                events,
            );
            let note = request.current->Note_0;
            &&& stored(after, request.member) matches Some(new)
            &&& is_dropped(
                request.current,
                new,
                LogicalPosition { x: note.x, y: note.y },
                request.size,
            )
            &&& forall|m: MemberView|
                m != request.member ==> #[trigger] stored(after, m) == stored(before, m)
            &&& after.store.groups == before.store.groups
            &&& after.windows == before.windows
            &&& after.geometries == before.geometries
        }),
{
    let steps = settlement_of(request, None, PositionSettlement::Unchanged).0;
    lemma_storing_keeps(
        request.current.seen_with_size(request.size),
        request.current,
        before,
    );
    assert(steps =~= size_steps(request, request.current).0);
    law_unhindered_operation_is_done(
        steps,
        before,
        ends(written(before, seq![request.current.seen_with_size(request.size)])),
        events,
    );
}

/// Once a window is settled, its drag is too. An awaited move of it is no longer awaited
/// exactly if it was not dragged and is found within two pixels of where it was asked to
/// go. Drags in progress go on, and other windows are not concerned.
pub proof fn law_settled_drags_are_forgotten(
    runtime: RuntimeView,
    key: Seq<char>,
    other: Seq<char>,
    observed: PhysicalPosition,
)
    ensures
        ({
            let after = runtime_settled(runtime, key, observed);
            let asked = runtime.pending[key];
            &&& !after.completed.contains_key(key)
            &&& after.drags == runtime.drags
            &&& after.pending.contains_key(key) <==> {
                &&& runtime.pending.contains_key(key)
                &&& runtime.completed.contains_key(key) || !is_within(
                    asked.x as int,
                    asked.y as int,
                    observed.x as int,
                    observed.y as int,
                    2,
                )
            }
            &&& after.pending.contains_key(key) ==> after.pending[key] == asked
            &&& other != key ==> {
                &&& after.completed.contains_key(other) == runtime.completed.contains_key(other)
                &&& after.completed[other] == runtime.completed[other]
                &&& after.pending.contains_key(other) == runtime.pending.contains_key(other)
                &&& after.pending[other] == runtime.pending[other]
            }
        }),
{
}

/// What becomes of a window that was dragged is decided by where the drag started: by
/// the place that was remembered when it ended, and by nothing if none was.
pub proof fn law_ended_drag_is_the_remembered_one(runtime: RuntimeView, key: Seq<char>)
    ensures
        match ended_drag(runtime, key) {
            Some(origin) => runtime.completed.contains_key(key) && runtime.completed[key]
                == origin,
            None => !runtime.completed.contains_key(key),
        },
{
}

} // verus!
