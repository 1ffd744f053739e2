//! Windows by their place on the desktop: reading order, and sides of a display.
use vstd::prelude::*;

use crate::error::GroupError;
use crate::geometry::{
    fits_i64, geometry_rect, GeometryIndex, NoteGeometry, PhysicalPosition, WindowRect,
};
use crate::member::{member_before, MemberView, StoredGroupMember};
use crate::member_set::MemberSet;
use crate::ordering::{
    is_stable_order, lemma_stable_order_is_permutation, lemma_stands_before, lemma_text_order,
    lemma_text_order_is_total, lists, stable_order, stands_before, SortKey,
};
use crate::views::views;

verus! {

/// A window and its position, ordered from top to bottom, then from left to
/// right, then by window.
pub struct PlaceKey {
    pub position: PhysicalPosition,
    pub member: StoredGroupMember,
}

/// Whether a window at one position comes before a window at another in
/// reading order.
pub open spec fn place_before(
    a: (PhysicalPosition, MemberView),
    b: (PhysicalPosition, MemberView),
) -> bool {
    if a.0.y != b.0.y {
        a.0.y < b.0.y
    } else if a.0.x != b.0.x {
        a.0.x < b.0.x
    } else {
        member_before(a.1, b.1)
    }
}

impl SortKey for PlaceKey {
    open spec fn before(self, other: Self) -> bool {
        place_before((self.position, self.member@), (other.position, other.member@))
    }

    proof fn before_is_asymmetric(a: Self, b: Self) {
        StoredGroupMember::before_is_asymmetric(a.member, b.member);
    }

    proof fn before_splits(a: Self, b: Self, c: Self) {
        StoredGroupMember::before_splits(a.member, b.member, c.member);
    }

    fn is_before(&self, other: &Self) -> (before: bool) {
        if self.position.y != other.position.y {
            self.position.y < other.position.y
        } else if self.position.x != other.position.x {
            self.position.x < other.position.x
        } else {
            self.member.is_before(&other.member)
        }
    }
}

/// The place of a window in reading order.
pub open spec fn place_of(geometries: Map<Seq<char>, NoteGeometry>, member: MemberView) -> (
    PhysicalPosition,
    MemberView,
) {
    (geometries[member.id].position, member)
}

/// Whether `order` lists the windows of a set, each once, in reading order.
pub open spec fn is_visual_order(
    members: Set<MemberView>,
    geometries: Map<Seq<char>, NoteGeometry>,
    order: Seq<MemberView>,
) -> bool {
    &&& order.no_duplicates()
    &&& order.to_set() == members
    &&& forall|i: int, j: int|
        0 <= i < j < order.len() ==> place_before(
            place_of(geometries, #[trigger] order[i]),
            place_of(geometries, #[trigger] order[j]),
        )
}

/// The windows of a set in reading order: from top to bottom, then from left
/// to right.
pub fn visual_order(members: &MemberSet, geometries: &GeometryIndex) -> (order: Result<
    Vec<StoredGroupMember>,
    GroupError,
>)
    ensures
        match order {
            Ok(order) => {
                &&& forall|m: MemberView| #[trigger]
                    members@.contains(m) ==> geometries@.contains_key(m.id)
                &&& is_visual_order(members@, geometries@, views(order@))
            },
            Err(error) => exists|m: MemberView| #[trigger]
                members@.contains(m) && !geometries@.contains_key(m.id) && (error matches
                    GroupError::MissingGeometry(id) && id@ == m.id),
        },
{
    let listed = members.to_vec();
    let mut keys: Vec<PlaceKey> = Vec::new();
    let mut i: usize = 0;
    while i < listed.len()
        invariant
            views(listed@).to_set() == members@,
            i <= listed@.len(),
            keys@.len() == i,
            forall|j: int|
                0 <= j < i ==> {
                    &&& geometries@.contains_key(listed@[j].id@)
                    &&& (#[trigger] keys@[j]).member@ == listed@[j]@
                    &&& keys@[j].position == geometries@[listed@[j].id@].position
                },
        decreases listed.len() - i,
    {
        match geometries.get(listed[i].id.as_str()) {
            Ok(geometry) => {
                keys.push(PlaceKey { position: geometry.position, member: listed[i].clone() });
            },
            Err(missing) => {
                proof {
                    let m = listed@[i as int]@;
                    assert(views(listed@)[i as int] == m);
                    assert(members@.contains(m));
                }
                return Err(GroupError::MissingGeometry(missing.id));
            },
        }
        i += 1;
    }
    let sorted = stable_order(&keys);
    let mut order: Vec<StoredGroupMember> = Vec::new();
    let mut k: usize = 0;
    while k < sorted.len()
        invariant
            keys@.len() == listed@.len(),
            is_stable_order(keys@, sorted@),
            forall|j: int| 0 <= j < keys@.len() ==> (#[trigger] keys@[j]).member@ == listed@[j]@,
            k <= sorted@.len(),
            order@.len() == k,
            forall|j: int| 0 <= j < k ==> #[trigger] order@[j]@ == listed@[sorted@[j] as int]@,
        decreases sorted.len() - k,
    {
        order.push(listed[sorted[k]].clone());
        k += 1;
    }
    proof {
        lemma_sorted_is_visual_order(geometries@, views(listed@), keys@, sorted@, views(order@));
        assert forall|m: MemberView| #[trigger] members@.contains(m) implies geometries@.contains_key(
            m.id,
        ) by {
            let j = views(listed@).index_of(m);
            assert(keys@[j].member@ == listed@[j]@);
        }
    }
    Ok(order)
}

proof fn lemma_sorted_is_visual_order(
    geometries: Map<Seq<char>, NoteGeometry>,
    listed: Seq<MemberView>,
    keys: Seq<PlaceKey>,
    sorted: Seq<usize>,
    order: Seq<MemberView>,
)
    requires
        listed.no_duplicates(),
        keys.len() == listed.len(),
        is_stable_order(keys, sorted),
        order.len() == sorted.len(),
        forall|j: int|
            0 <= j < keys.len() ==> (#[trigger] keys[j]).member@ == listed[j] && keys[j].position
                == geometries[listed[j].id].position,
        forall|j: int| 0 <= j < order.len() ==> #[trigger] order[j] == listed[sorted[j] as int],
    ensures
        is_visual_order(listed.to_set(), geometries, order),
{
    lemma_stable_order_is_permutation(keys, sorted);
    assert forall|i: int, j: int|
        0 <= i < order.len() && 0 <= j < order.len() && i != j implies order[i] != order[j] by {
        if i < j {
            assert(stands_before(keys, sorted[i] as int, sorted[j] as int));
            lemma_stands_before(keys, sorted[i] as int, sorted[j] as int, 0);
        } else {
            assert(stands_before(keys, sorted[j] as int, sorted[i] as int));
            lemma_stands_before(keys, sorted[j] as int, sorted[i] as int, 0);
        }
    }
    assert forall|m: MemberView| order.contains(m) <==> listed.contains(m) by {
        if order.contains(m) {
            let j = order.index_of(m);
            assert(listed[sorted[j] as int] == m);
        }
        if listed.contains(m) {
            let j = listed.index_of(m);
            assert(lists(sorted, j));
            let k = choose|k: int| 0 <= k < sorted.len() && sorted[k] == j;
            assert(order[k] == m);
        }
    }
    assert(order.to_set() =~= listed.to_set());
    assert forall|i: int, j: int| 0 <= i < j < order.len() implies place_before(
        place_of(geometries, #[trigger] order[i]),
        place_of(geometries, #[trigger] order[j]),
    ) by {
        let a = sorted[i] as int;
        let b = sorted[j] as int;
        assert(stands_before(keys, a, b));
        lemma_stands_before(keys, a, b, 0);
        assert(keys[a].member@ == listed[a] && keys[b].member@ == listed[b]);
        lemma_different_places(keys[a], keys[b]);
    }
}

/// Of two different windows one comes before the other.
proof fn lemma_different_places(a: PlaceKey, b: PlaceKey)
    requires
        a.member@ != b.member@,
    ensures
        a.before(b) || b.before(a),
{
    lemma_text_order_is_total(a.member@.id, b.member@.id);
}

/// The reading order of a set of windows is unique: it does not depend on how
/// the set was put together.
pub proof fn law_visual_order_is_unique(
    members: Set<MemberView>,
    geometries: Map<Seq<char>, NoteGeometry>,
    a: Seq<MemberView>,
    b: Seq<MemberView>,
)
    requires
        is_visual_order(members, geometries, a),
        is_visual_order(members, geometries, b),
    ensures
        a == b,
{
    a.unique_seq_to_set();
    b.unique_seq_to_set();
    assert forall|i: int| 0 <= i < a.len() implies a[i] == b[i] by {
        lemma_same_window_at(members, geometries, a, b, i);
    }
    assert(a =~= b);
}

proof fn lemma_same_window_at(
    members: Set<MemberView>,
    geometries: Map<Seq<char>, NoteGeometry>,
    a: Seq<MemberView>,
    b: Seq<MemberView>,
    i: int,
)
    requires
        is_visual_order(members, geometries, a),
        is_visual_order(members, geometries, b),
        a.len() == b.len(),
        0 <= i < a.len(),
    ensures
        a[i] == b[i],
    decreases i,
{
    assert forall|h: int| 0 <= h < i implies a[h] == b[h] by {
        lemma_same_window_at(members, geometries, a, b, h);
    }
    assert(a.to_set().contains(a[i]));
    assert(b.to_set().contains(a[i]));
    let j = b.index_of(a[i]);
    assert(b.to_set().contains(b[i]));
    assert(a.to_set().contains(b[i]));
    let k = a.index_of(b[i]);
    if j < i {
        assert(a[j] == b[j]);
    }
    if k < i {
        assert(a[k] == b[k]);
    }
    if j > i && k > i {
        assert(place_before(place_of(geometries, b[i]), place_of(geometries, b[j])));
        assert(place_before(place_of(geometries, a[i]), place_of(geometries, a[k])));
        lemma_member_order_is_asymmetric(a[i], b[i]);
    }
}

proof fn lemma_member_order_is_asymmetric(a: MemberView, b: MemberView)
    ensures
        !(member_before(a, b) && member_before(b, a)),
{
    lemma_text_order(a.id, b.id, a.id);
}

/// Whether a window lies on the same display as another, and on the same side
/// of the middle of its work area; windows are judged by their centres.
pub open spec fn on_same_side(
    monitor: WindowRect,
    work_area: WindowRect,
    anchor: NoteGeometry,
    other: NoteGeometry,
) -> bool {
    let middle = work_area.spec_center_twice().0;
    let anchor_center = geometry_rect(anchor).spec_center_twice();
    let center = geometry_rect(other).spec_center_twice();
    &&& monitor.spec_contains_center_twice(center)
    &&& (center.0 < middle) == (anchor_center.0 < middle)
}

/// The candidates that lie on the same display and side as the anchor.
pub open spec fn members_on_side(
    anchor: MemberView,
    candidates: Seq<MemberView>,
    geometries: Map<Seq<char>, NoteGeometry>,
    monitor: WindowRect,
    work_area: WindowRect,
) -> Set<MemberView> {
    Set::new(
        |m: MemberView|
            candidates.contains(m) && on_same_side(
                monitor,
                work_area,
                geometries[anchor.id],
                geometries[m.id],
            ),
    )
}

/// Whether the geometry of the first `n` windows of a list is known.
pub open spec fn geometry_known(
    members: Seq<MemberView>,
    geometries: Map<Seq<char>, NoteGeometry>,
    n: int,
) -> bool {
    forall|i: int| 0 <= i < n ==> geometries.contains_key((#[trigger] members[i]).id)
}

/// Whether the sides of the windows of a list can be computed in `i64`.
pub open spec fn sides_fit(
    anchor: MemberView,
    candidates: Seq<MemberView>,
    geometries: Map<Seq<char>, NoteGeometry>,
    monitor: WindowRect,
    work_area: WindowRect,
) -> bool {
    let anchor_center = geometry_rect(geometries[anchor.id]).spec_center_twice();
    geometries.contains_key(anchor.id) ==> {
        &&& monitor.containment_fits(anchor_center)
        &&& monitor.spec_contains_center_twice(anchor_center) ==> {
            &&& fits_i64(2 * work_area.x)
            &&& fits_i64(2 * work_area.x + work_area.width)
            &&& forall|i: int|
                #![trigger candidates[i]]
                0 <= i < candidates.len() && geometry_known(candidates, geometries, i + 1)
                    ==> monitor.containment_fits(
                    geometry_rect(geometries[candidates[i].id]).spec_center_twice(),
                )
        }
    }
}

/// The candidates that lie on the same display as the anchor and on the same
/// side of the middle of the work area, in reading order.
pub fn members_on_anchor_monitor_side(
    anchor: &StoredGroupMember,
    candidates: &Vec<StoredGroupMember>,
    geometries: &GeometryIndex,
    monitor: WindowRect,
    work_area: WindowRect,
) -> (order: Result<Vec<StoredGroupMember>, GroupError>)
    requires
        sides_fit(anchor@, views(candidates@), geometries@, monitor, work_area),
    ensures
        ({
            let known = geometries@.contains_key(anchor@.id);
            let here = known && monitor.spec_contains_center_twice(
                geometry_rect(geometries@[anchor@.id]).spec_center_twice(),
            );
            match order {
                Ok(order) => {
                    &&& here
                    &&& geometry_known(views(candidates@), geometries@, candidates@.len() as int)
                    &&& is_visual_order(
                        members_on_side(
                            anchor@,
                            views(candidates@),
                            geometries@,
                            monitor,
                            work_area,
                        ),
                        geometries@,
                        views(order@),
                    )
                },
                Err(GroupError::ParentOutsideMonitor) => known && !here,
                Err(GroupError::MissingGeometry(id)) => {
                    ||| !known && id@ == anchor@.id
                    ||| here && exists|i: int|
                        {
                            &&& 0 <= i < candidates@.len()
                            &&& geometry_known(views(candidates@), geometries@, i)
                            &&& !geometries@.contains_key((#[trigger] candidates@[i])@.id)
                            &&& id@ == candidates@[i]@.id
                        }
                },
                Err(_) => false,
            }
        }),
{
    let anchor_geometry = match geometries.get(anchor.id.as_str()) {
        Ok(geometry) => geometry,
        Err(missing) => {
            return Err(GroupError::MissingGeometry(missing.id));
        },
    };
    let anchor_center: (i64, i64) = WindowRect::from_physical(
        anchor_geometry.position,
        anchor_geometry.size,
    ).center_twice();
    if !monitor.contains_center_twice(anchor_center) {
        return Err(GroupError::ParentOutsideMonitor);
    }
    let middle: i64 = 2 * work_area.x + work_area.width;
    let anchor_is_left: bool = anchor_center.0 < middle;
    let mut eligible = MemberSet::new();
    let mut i: usize = 0;
    let ghost all = views(candidates@);
    while i < candidates.len()
        invariant
            all == views(candidates@),
            sides_fit(anchor@, all, geometries@, monitor, work_area),
            geometries@.contains_key(anchor@.id),
            monitor.spec_contains_center_twice(
                geometry_rect(geometries@[anchor@.id]).spec_center_twice(),
            ),
            middle == work_area.spec_center_twice().0,
            anchor_is_left == (geometry_rect(geometries@[anchor@.id]).spec_center_twice().0
                < middle),
            i <= candidates@.len(),
            geometry_known(all, geometries@, i as int),
            eligible@ == members_on_side(
                anchor@,
                all.take(i as int),
                geometries@,
                monitor,
                work_area,
            ),
        decreases candidates.len() - i,
    {
        let geometry = match geometries.get(candidates[i].id.as_str()) {
            Ok(geometry) => geometry,
            Err(missing) => {
                return Err(GroupError::MissingGeometry(missing.id));
            },
        };
        assert(geometry_known(all, geometries@, i + 1));
        assert(geometry_rect(geometry) == geometry_rect(geometries@[all[i as int].id]));
        let center: (i64, i64) = WindowRect::from_physical(
            geometry.position,
            geometry.size,
        ).center_twice();
        if monitor.contains_center_twice(center) && (center.0 < middle) == anchor_is_left {
            eligible.insert(candidates[i].clone());
        }
        proof {
            let m = all[i as int];
            assert(all.take(i + 1) =~= all.take(i as int).push(m));
            let now = members_on_side(anchor@, all.take(i + 1), geometries@, monitor, work_area);
            assert forall|other: MemberView| #[trigger]
                eligible@.contains(other) <==> now.contains(other) by {
                if all.take(i as int).contains(other) {
                    let k = all.take(i as int).index_of(other);
                    assert(all.take(i + 1)[k] == other);
                }
                if all.take(i + 1).contains(other) {
                    let k = all.take(i + 1).index_of(other);
                    if k < i {
                        assert(all.take(i as int)[k] == other);
                    }
                }
                assert(all.take(i + 1)[i as int] == m);
            }
            assert(eligible@ =~= now);
        }
        i += 1;
    }
    proof {
        assert(all.take(candidates@.len() as int) =~= all);
    }
    match visual_order(&eligible, geometries) {
        Ok(order) => Ok(order),
        Err(error) => {
            proof {
                let m = choose|m: MemberView| #[trigger]
                    eligible@.contains(m) && !geometries@.contains_key(m.id);
                let k = all.index_of(m);
                assert(geometries@.contains_key(all[k].id));
            }
            Err(error)
        },
    }
}

} // verus!
