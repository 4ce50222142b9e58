//! Clip polygons for the named elements of a view, and when to write them.

use vstd::prelude::*;

use crate::table::{lemma_filed, Table};

verus! {

/// Per-view clip bridge: the desired clip polygon of each element, by name.
///
/// `P` is a point of a polygon, in the element's own coordinate space. A polygon
/// is closed; an empty one clears the element's clip, and one of one or two
/// points is degenerate and is not written.
#[derive(Debug)]
pub struct NoesisClip<P> {
    pub clips: Table<String, Vec<P>>,
}

impl<P> View for NoesisClip<P> {
    type V = Map<Seq<char>, Seq<P>>;

    open spec fn view(&self) -> Map<Seq<char>, Seq<P>> {
        self.clips@
    }
}

impl<P> NoesisClip<P> {
    /// An empty bridge with no clips. Chain [`clip`](Self::clip) to add polygons.
    #[must_use]
    pub fn new() -> (bridge: Self)
        ensures
            bridge@ == Map::<Seq<char>, Seq<P>>::empty(),
    {
        NoesisClip { clips: Table::new() }
    }

    /// Builder: set element `name`'s clip to the closed polygon through `points`
    /// (empty clears it).
    #[must_use]
    pub fn clip(self, name: String, points: Vec<P>) -> (bridge: Self)
        ensures
            bridge@ == self@.insert(name@, points@),
            bridge.clips.values() == self.clips.values().insert(name@, points),
    {
        let mut bridge = self;
        bridge.set(name, points);
        bridge
    }

    /// Set element `name`'s clip on a bridge in use. The runtime counterpart of
    /// [`clip`](Self::clip).
    pub fn set(&mut self, name: String, points: Vec<P>)
        ensures
            final(self)@ == old(self)@.insert(name@, points@),
            final(self).clips.values() == old(self).clips.values().insert(name@, points),
    {
        self.clips.insert(name, points);
    }
}

impl<P> Default for NoesisClip<P> {
    fn default() -> (bridge: Self)
        ensures
            bridge@ == Map::<Seq<char>, Seq<P>>::empty(),
    {
        Self::new()
    }
}

impl<P: Clone> Clone for NoesisClip<P> {
    /// The same elements, each with a clone of its polygon.
    fn clone(&self) -> (copy: Self)
        ensures
            copy@.dom() == self@.dom(),
            copy.clips.values().dom() == self.clips.values().dom(),
            forall|name: Seq<char>| #[trigger]
                self.clips.values().contains_key(name) ==> cloned(
                    self.clips.values()[name],
                    copy.clips.values()[name],
                ),
    {
        let copy = NoesisClip { clips: self.clips.clone() };
        assert(copy@.dom() =~= self@.dom());
        copy
    }
}

/// The polygon written last for a name is the one that counts, and the polygons
/// of other names stay as they were.
pub proof fn law_last_polygon_counts<P>(
    clips: Map<Seq<char>, Seq<P>>,
    name: Seq<char>,
    first: Seq<P>,
    second: Seq<P>,
    other: Seq<char>,
)
    ensures
        ({
            let after = clips.insert(name, first).insert(name, second);
            &&& after == clips.insert(name, second)
            &&& after.contains_key(name) && after[name] == second
            &&& other != name ==> (after.contains_key(other) <==> clips.contains_key(other))
            &&& other != name && clips.contains_key(other) ==> after[other] == clips[other]
        }),
{
    assert(clips.insert(name, first).insert(name, second) =~= clips.insert(name, second));
}

/// What to do with an element's clip.
#[derive(Clone, Copy, PartialEq, Eq, Structural, Debug)]
pub enum ClipAction {
    /// Remove the clip.
    Clear,
    /// Leave the clip as it is: the polygon is degenerate.
    Skip,
    /// Clip to the polygon.
    Assign,
}

/// What a polygon of `n` points asks for.
pub open spec fn action_for(n: nat) -> ClipAction {
    if n == 0 {
        ClipAction::Clear
    } else if n < 3 {
        ClipAction::Skip
    } else {
        ClipAction::Assign
    }
}

/// What the polygon `points` asks for: empty clears the clip, one or two points
/// are degenerate and skipped, three or more are assigned.
pub fn clip_action<P>(points: &Vec<P>) -> (action: ClipAction)
    ensures
        action == action_for(points@.len()),
        action is Clear <==> points@.len() == 0,
        action is Skip <==> points@.len() == 1 || points@.len() == 2,
        action is Assign <==> points@.len() >= 3,
{
    if points.len() == 0 {
        ClipAction::Clear
    } else if points.len() < 3 {
        ClipAction::Skip
    } else {
        ClipAction::Assign
    }
}

/// A polygon without points clears the clip, one of one or two points is skipped,
/// and any larger one is assigned, however large.
pub proof fn law_actions_by_size(n: nat)
    ensures
        action_for(n) is Clear <==> n == 0,
        action_for(n) is Skip <==> n == 1 || n == 2,
        action_for(n) is Assign <==> n >= 3,
{
}

/// What to do with the clip of each element that `bridge` names: every name comes
/// once, with what its polygon asks for, and no other name does.
pub fn clip_writes<P>(bridge: &NoesisClip<P>) -> (writes: Vec<(String, ClipAction)>)
    ensures
        writes@.len() == bridge@.len(),
        forall|i: int, j: int|
            0 <= i < j < writes@.len() ==> (#[trigger] writes@[i]).0@ != (#[trigger] writes@[j]).0@,
        forall|i: int|
            0 <= i < writes@.len() ==> bridge@.contains_key((#[trigger] writes@[i]).0@)
                && writes@[i].1 == action_for(bridge@[writes@[i].0@].len()),
        forall|name: Seq<char>| #[trigger]
            bridge@.contains_key(name) ==> exists|i: int|
                0 <= i < writes@.len() && (#[trigger] writes@[i]).0@ == name,
{
    let entries = bridge.clips.entries();
    let mut writes: Vec<(String, ClipAction)> = Vec::new();
    while writes.len() < entries.len()
        invariant
            writes@.len() <= entries@.len(),
            forall|i: int|
                #![trigger writes@[i]]
                0 <= i < writes@.len() ==> writes@[i].0@ == entries@[i].0@ && writes@[i].1
                    == action_for(entries@[i].1@.len()),
        decreases entries@.len() - writes@.len(),
    {
        let entry = &entries[writes.len()];
        writes.push((entry.0.clone(), clip_action(&entry.1)));
    }
    proof {
        lemma_filed(entries@);
        assert(bridge@.dom() =~= bridge.clips.values().dom());
        assert forall|i: int, j: int| 0 <= i < j < writes@.len() implies (#[trigger] writes@[i]).0@
            != (#[trigger] writes@[j]).0@ by {
            assert(entries@[i].0@ != entries@[j].0@);
        }
        assert forall|i: int| 0 <= i < writes@.len() implies bridge@.contains_key(
            (#[trigger] writes@[i]).0@,
        ) && writes@[i].1 == action_for(bridge@[writes@[i].0@].len()) by {
            assert(bridge.clips.values().contains_key(entries@[i].0@));
        }
        assert forall|name: Seq<char>| #[trigger] bridge@.contains_key(name) implies exists|i: int|
            0 <= i < writes@.len() && (#[trigger] writes@[i]).0@ == name by {
            let i = choose|i: int| 0 <= i < entries@.len() && #[trigger] entries@[i].0@ == name;
            assert(writes@[i].0@ == name);
        }
    }
    writes
}

/// A view that carries a clip bridge, with what this frame brought it.
pub struct ClipView<E> {
    /// The view.
    pub entity: E,
    /// The bridge was changed.
    pub changed: bool,
    /// The view's scene was rebuilt.
    pub scene_rebuilt: bool,
    /// The view's panel fragment was mounted.
    pub panel_mounted: bool,
}

impl<E> ClipView<E> {
    /// Whether the view's clips have to be written this frame.
    pub open spec fn needs_apply(self) -> bool {
        self.changed || self.scene_rebuilt || self.panel_mounted
    }
}

/// The views whose clips have to be written this frame, in order.
pub open spec fn views_to_apply<E>(views: Seq<ClipView<E>>) -> Seq<E> {
    views.filter(|view: ClipView<E>| view.needs_apply()).map_values(
        |view: ClipView<E>| view.entity,
    )
}

/// Reconcile every view's clip bridge: which views to write clips for. These are
/// the ones whose bridge changed, whose scene was rebuilt or whose panel fragment
/// was mounted; none while there is no render state to write to.
pub fn sync_clip_bridge<E: Copy>(render_ready: bool, views: &Vec<ClipView<E>>) -> (apply: Vec<E>)
    ensures
        apply@ == if render_ready {
            views_to_apply(views@)
        } else {
            Seq::empty()
        },
        render_ready ==> forall|i: int|
            0 <= i < views@.len() && (#[trigger] views@[i]).changed ==> apply@.contains(
                views@[i].entity,
            ),
        render_ready ==> forall|i: int|
            0 <= i < views@.len() && (#[trigger] views@[i]).scene_rebuilt ==> apply@.contains(
                views@[i].entity,
            ),
        render_ready ==> forall|i: int|
            0 <= i < views@.len() && (#[trigger] views@[i]).panel_mounted ==> apply@.contains(
                views@[i].entity,
            ),
        forall|entity: E| #[trigger]
            apply@.contains(entity) ==> exists|i: int|
                0 <= i < views@.len() && (#[trigger] views@[i]).entity == entity && (
                views@[i].changed || views@[i].scene_rebuilt || views@[i].panel_mounted),
{
    let mut apply: Vec<E> = Vec::new();
    if !render_ready {
        return apply;
    }
    proof {
        reveal(Seq::filter);
        assert(apply@ =~= views_to_apply(views@.take(0)));
    }
    for i in 0..views.len()
        invariant
            apply@ == views_to_apply(views@.take(i as int)),
    {
        let view = &views[i];
        if view.changed || view.scene_rebuilt || view.panel_mounted {
            apply.push(view.entity);
        }
        proof {
            reveal(Seq::filter);
            let seen = views@.take(i + 1);
            assert(seen.drop_last() =~= views@.take(i as int));
            assert(seen.last() == views@[i as int]);
            assert(apply@ =~= views_to_apply(seen));
        }
    }
    assert(views@.take(views@.len() as int) =~= views@);
    proof {
        assert forall|i: int|
            0 <= i < views@.len() && ((#[trigger] views@[i]).changed || views@[i].scene_rebuilt
                || views@[i].panel_mounted) implies apply@.contains(views@[i].entity) by {
            law_each_flag_is_enough(views@, i);
        }
        assert forall|entity: E| #[trigger] apply@.contains(entity) implies exists|i: int|
            0 <= i < views@.len() && (#[trigger] views@[i]).entity == entity && (views@[i].changed
                || views@[i].scene_rebuilt || views@[i].panel_mounted) by {
            law_nothing_is_applied_without_a_flag(views@, entity);
        }
    }
    apply
}

/// Any one of the three flags is enough for a view's clips to be written, whatever
/// the other two say.
pub proof fn law_each_flag_is_enough<E>(views: Seq<ClipView<E>>, i: int)
    requires
        0 <= i < views.len(),
    ensures
        views[i].changed ==> views_to_apply(views).contains(views[i].entity),
        views[i].scene_rebuilt ==> views_to_apply(views).contains(views[i].entity),
        views[i].panel_mounted ==> views_to_apply(views).contains(views[i].entity),
{
    law_applied_exactly_when_needed(views, views[i].entity);
    assert(views[i].changed || views[i].scene_rebuilt || views[i].panel_mounted
        ==> views[i].needs_apply());
}

/// A view's clips are written only where one of its three flags is set.
pub proof fn law_nothing_is_applied_without_a_flag<E>(views: Seq<ClipView<E>>, entity: E)
    requires
        views_to_apply(views).contains(entity),
    ensures
        exists|i: int|
            0 <= i < views.len() && (#[trigger] views[i]).entity == entity && (views[i].changed
                || views[i].scene_rebuilt || views[i].panel_mounted),
{
    law_applied_exactly_when_needed(views, entity);
    let i = choose|i: int|
        0 <= i < views.len() && (#[trigger] views[i]).entity == entity && views[i].needs_apply();
    assert(views[i].changed || views[i].scene_rebuilt || views[i].panel_mounted);
}

/// Each view is decided by itself and in its turn: reconciling two lists of views
/// one after the other is reconciling them together, one view with a flag comes out
/// once, and one without does not come out.
pub proof fn law_views_are_decided_one_by_one<E>(
    first: Seq<ClipView<E>>,
    second: Seq<ClipView<E>>,
    view: ClipView<E>,
)
    ensures
        views_to_apply(first + second) == views_to_apply(first) + views_to_apply(second),
        view.changed || view.scene_rebuilt || view.panel_mounted ==> views_to_apply(seq![view])
            == seq![view.entity],
        !view.changed && !view.scene_rebuilt && !view.panel_mounted ==> views_to_apply(seq![view])
            == Seq::<E>::empty(),
        views_to_apply(Seq::<ClipView<E>>::empty()) == Seq::<E>::empty(),
{
    reveal_with_fuel(Seq::filter, 2);
    let needed = |view: ClipView<E>| view.needs_apply();
    Seq::filter_distributes_over_add(first, second, needed);
    assert(views_to_apply(first + second) =~= views_to_apply(first) + views_to_apply(second));
    assert(seq![view].drop_last() =~= Seq::<ClipView<E>>::empty());
    assert(seq![view].last() == view);
    assert(views_to_apply(Seq::<ClipView<E>>::empty()) =~= Seq::<E>::empty());
    if view.changed || view.scene_rebuilt || view.panel_mounted {
        assert(views_to_apply(seq![view]) =~= seq![view.entity]);
    } else {
        assert(views_to_apply(seq![view]) =~= Seq::<E>::empty());
    }
}

/// A view's clips are written exactly when its bridge changed, its scene was
/// rebuilt or its panel fragment was mounted.
pub proof fn law_applied_exactly_when_needed<E>(views: Seq<ClipView<E>>, entity: E)
    ensures
        views_to_apply(views).contains(entity) <==> exists|i: int|
            0 <= i < views.len() && (#[trigger] views[i]).entity == entity
                && views[i].needs_apply(),
    decreases views.len(),
{
    reveal(Seq::filter);
    if views.len() > 0 {
        let front = views.drop_last();
        let last = views.last();
        let before = views_to_apply(front);
        let after = views_to_apply(views);
        law_applied_exactly_when_needed(front, entity);
        assert(after =~= if last.needs_apply() {
            before.push(last.entity)
        } else {
            before
        });
        assert(views[views.len() - 1] == last);
        if before.contains(entity) {
            let k = choose|k: int| 0 <= k < before.len() && before[k] == entity;
            assert(after[k] == entity);
            let i = choose|i: int|
                0 <= i < front.len() && (#[trigger] front[i]).entity == entity
                    && front[i].needs_apply();
            assert(views[i] == front[i]);
        }
        if last.needs_apply() && last.entity == entity {
            assert(after[before.len() as int] == entity);
        }
        assert forall|i: int|
            0 <= i < views.len() - 1 && (#[trigger] views[i]).entity == entity
                && views[i].needs_apply() implies before.contains(entity) by {
            assert(front[i] == views[i]);
        }
    }
}

} // verus!
