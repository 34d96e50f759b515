use vstd::prelude::*;

use crate::event::Event;
use crate::process::{Process, Sentinel};

verus! {

/// What computes a node's samples: the root's pass-through, or a processor.
pub enum Stage<P> {
    Root(Sentinel),
    Unit(P),
}

/// One node of a tree, stored flat: its inputs are the slots whose `parent` is
/// this slot's index, and a parent always stands before its inputs.
pub struct Slot<S, P: Process<S>> {
    pub name: String,
    pub stage: Stage<P>,
    pub on: bool,
    pub parent: usize,
    /// Pending events, by decreasing sample index: the last one is due first.
    pub events: Vec<Event<S, P>>,
    /// The block of samples produced by the latest pass.
    pub block: Vec<S>,
}

/// The slots of a tree, with `None` where a node was removed; an index is
/// never given to another node.
pub type Slots<S, P> = Seq<Option<Slot<S, P>>>;

/// Slot `j` holds a node.
pub open spec fn live<S, P: Process<S>>(slots: Slots<S, P>, j: int) -> bool {
    0 <= j < slots.len() && slots[j] is Some
}

/// The node that slot `j` holds.
pub open spec fn slot<S, P: Process<S>>(slots: Slots<S, P>, j: int) -> Slot<S, P> {
    slots[j]->Some_0
}

/// The name of the node that slot `j` holds.
pub open spec fn name_of<S, P: Process<S>>(slots: Slots<S, P>, j: int) -> Seq<char> {
    slot(slots, j).name@
}

/// The slot of the node that the node of slot `j` is an input of.
pub open spec fn parent_of<S, P: Process<S>>(slots: Slots<S, P>, j: int) -> int {
    slot(slots, j).parent as int
}

/// Events stand by decreasing sample index.
pub open spec fn events_sorted<S, P: Process<S>>(events: Seq<Event<S, P>>) -> bool {
    forall|a: int, b: int| 0 <= a < b < events.len() ==> events[a].idx() >= events[b].idx()
}

/// The structure that every tree keeps: a live root at index 0; each other
/// live slot hangs from a live parent that stands before it; names are unique;
/// each event queue is sorted.
pub open spec fn slots_wf<S, P: Process<S>>(slots: Slots<S, P>) -> bool {
    &&& live(slots, 0)
    &&& parent_of(slots, 0) == 0
    &&& forall|j: int|
        0 < j < slots.len() && #[trigger] live(slots, j) ==> parent_of(slots, j) < j && live(
            slots,
            parent_of(slots, j),
        )
    &&& forall|i: int, j: int|
        #![trigger name_of(slots, i), name_of(slots, j)]
        live(slots, i) && live(slots, j) && i != j ==> name_of(slots, i) != name_of(slots, j)
    &&& forall|j: int| #[trigger] live(slots, j) ==> events_sorted(slot(slots, j).events@)
}

/// The names of the live slots.
pub open spec fn names_of<S, P: Process<S>>(slots: Slots<S, P>) -> Set<Seq<char>> {
    Set::new(|n: Seq<char>| exists|j: int| live(slots, j) && name_of(slots, j) == n)
}

/// Slot `j` is slot `k` or stands below it.
pub open spec fn under<S, P: Process<S>>(slots: Slots<S, P>, j: int, k: int) -> bool
    decreases j,
{
    if !live(slots, j) || j < k {
        false
    } else if j == k {
        true
    } else if 0 <= parent_of(slots, j) < j {
        under(slots, parent_of(slots, j), k)
    } else {
        false
    }
}

/// Where an event due at `idx` goes in a sorted queue: after every event due
/// strictly later, before every other one, so that events due at the same
/// index leave the queue in the order they were registered.
pub open spec fn slot_for<S, P: Process<S>>(events: Seq<Event<S, P>>, idx: int) -> int {
    events.filter(|e: Event<S, P>| e.idx() > idx).len() as int
}

/// Inserts `event` into the sorted queue `events`, at the position that
/// `slot_for` gives.
pub fn insert_event<S, P: Process<S>>(events: &mut Vec<Event<S, P>>, event: Event<S, P>)
    requires
        events_sorted(old(events)@),
    ensures
        events_sorted(final(events)@),
        final(events)@ == old(events)@.insert(slot_for(old(events)@, event.idx()), event),
{
    let ghost old_events = events@;
    let idx = event.get_sample_idx();
    let mut pos: usize = 0;
    while pos < events.len() && events[pos].get_sample_idx().0 > idx.0
        invariant
            events@ == old_events,
            events_sorted(old_events),
            pos <= events@.len(),
            forall|a: int| 0 <= a < pos ==> #[trigger] events@[a].idx() > idx.0,
        decreases events@.len() - pos,
    {
        pos = pos + 1;
    }
    proof {
        assert forall|a: int| pos <= a < old_events.len() implies #[trigger] old_events[a].idx()
            <= idx.0 by {
            assert(old_events[pos as int].idx() <= idx.0);
        }
        lemma_filter_prefix(old_events, idx.0 as int, pos as int);
    }
    events.insert(pos, event);
}

/// In a queue whose first `pos` events are due after `idx` and whose others are
/// not, `slot_for` is `pos`.
proof fn lemma_filter_prefix<S, P: Process<S>>(events: Seq<Event<S, P>>, idx: int, pos: int)
    requires
        0 <= pos <= events.len(),
        forall|a: int| 0 <= a < pos ==> #[trigger] events[a].idx() > idx,
        forall|a: int| pos <= a < events.len() ==> #[trigger] events[a].idx() <= idx,
    ensures
        slot_for(events, idx) == pos,
    decreases events.len(),
{
    let f = |e: Event<S, P>| e.idx() > idx;
    if events.len() == 0 {
        assert(events.filter(f) =~= Seq::<Event<S, P>>::empty());
    } else {
        let front = events.drop_last();
        assert(events =~= front.push(events.last()));
        front.lemma_filter_push(events.last(), f);
        if pos == events.len() {
            lemma_filter_prefix(front, idx, pos - 1);
        } else {
            lemma_filter_prefix(front, idx, pos);
        }
    }
}

/// Slot `j` stands at or below one of the slots that `seeds` picks.
pub open spec fn covered<S, P: Process<S>>(slots: Slots<S, P>, seeds: Seq<bool>, j: int) -> bool {
    exists|k: int| 0 <= k < seeds.len() && seeds[k] && #[trigger] under(slots, j, k)
}

/// `slots` with every slot that `covered` marks taken out.
pub open spec fn without<S, P: Process<S>>(slots: Slots<S, P>, seeds: Seq<bool>) -> Slots<S, P> {
    Seq::new(slots.len(), |j: int| if covered(slots, seeds, j) { None } else { slots[j] })
}

/// The seeds that pick the live slots whose name is in `names`.
pub open spec fn named<S, P: Process<S>>(slots: Slots<S, P>, names: Set<Seq<char>>) -> Seq<bool> {
    Seq::new(slots.len(), |j: int| live(slots, j) && names.contains(name_of(slots, j)))
}

proof fn lemma_under_step<S, P: Process<S>>(slots: Slots<S, P>, j: int, k: int)
    requires
        slots_wf(slots),
        0 < j < slots.len(),
        live(slots, j),
    ensures
        under(slots, j, k) == (j == k || under(slots, parent_of(slots, j), k)),
{
    assert(live(slots, j));
    if j < k {
        assert(!under(slots, parent_of(slots, j), k));
    }
}

pub(crate) proof fn lemma_under_root<S, P: Process<S>>(slots: Slots<S, P>, j: int)
    requires
        slots_wf(slots),
        live(slots, j),
    ensures
        under(slots, j, 0),
    decreases j,
{
    if j > 0 {
        lemma_under_root(slots, parent_of(slots, j));
    }
}

pub(crate) proof fn lemma_under_live<S, P: Process<S>>(slots: Slots<S, P>, j: int, k: int)
    requires
        under(slots, j, k),
    ensures
        live(slots, j),
        k <= j,
{
}

/// The index of the live slot called `name`, if there is one.
pub(crate) fn find_slot<S, P: Process<S>>(slots: &Vec<Option<Slot<S, P>>>, name: &String) -> (r: Option<
    usize,
>)
    requires
        slots_wf(slots@),
    ensures
        r matches Some(k) ==> live(slots@, k as int) && name_of(slots@, k as int) == name@,
        r is None ==> !names_of(slots@).contains(name@),
{
    let mut j: usize = 0;
    while j < slots.len()
        invariant
            j <= slots@.len(),
            forall|i: int| 0 <= i < j && #[trigger] live(slots@, i) ==> name_of(slots@, i) != name@,
        decreases slots@.len() - j,
    {
        match &slots[j] {
            Some(s) => {
                if s.name == *name {
                    return Some(j);
                }
            },
            None => {},
        }
        j = j + 1;
    }
    None
}

/// Marks each slot that stands at or below a slot that `seeds` picks.
pub(crate) fn mark_subtrees<S, P: Process<S>>(slots: &Vec<Option<Slot<S, P>>>, seeds: &Vec<bool>) -> (marks:
    Vec<bool>)
    requires
        slots_wf(slots@),
        seeds@.len() == slots@.len(),
    ensures
        marks@.len() == slots@.len(),
        forall|j: int| 0 <= j < slots@.len() ==> marks@[j] == covered(slots@, seeds@, j),
{
    let mut marks: Vec<bool> = Vec::new();
    let mut j: usize = 0;
    while j < slots.len()
        invariant
            slots_wf(slots@),
            seeds@.len() == slots@.len(),
            j <= slots@.len(),
            marks@.len() == j,
            forall|i: int| 0 <= i < j ==> marks@[i] == covered(slots@, seeds@, i),
        decreases slots@.len() - j,
    {
        let m = match &slots[j] {
            Some(s) => {
                proof {
                    assert(live(slots@, j as int));
                }
                if seeds[j] {
                    true
                } else if j > 0 {
                    marks[s.parent]
                } else {
                    false
                }
            },
            None => false,
        };
        proof {
            let ss = slots@;
            if live(ss, j as int) {
                if j > 0 {
                    let p = parent_of(ss, j as int);
                    assert forall|k: int| under(ss, j as int, k) == (j == k || under(ss, p, k)) by {
                        lemma_under_step(ss, j as int, k);
                    }
                    if seeds@[j as int] {
                        assert(under(ss, j as int, j as int));
                    }
                    if marks@[p] {
                        let k = choose|k: int| 0 <= k < seeds@.len() && seeds@[k] && #[trigger] under(ss, p, k);
                        assert(under(ss, j as int, k));
                    }
                    if covered(ss, seeds@, j as int) {
                        let k = choose|k: int| 0 <= k < seeds@.len() && seeds@[k] && #[trigger] under(ss, j as int, k);
                        if k != j {
                            assert(under(ss, p, k));
                        }
                    }
                } else {
                    if seeds@[0] {
                        assert(under(ss, 0, 0));
                    }
                    if covered(ss, seeds@, 0) {
                        let k = choose|k: int| 0 <= k < seeds@.len() && seeds@[k] && #[trigger] under(ss, 0, k);
                        lemma_under_live(ss, 0, k);
                    }
                }
            } else {
                if covered(ss, seeds@, j as int) {
                    let k = choose|k: int| 0 <= k < seeds@.len() && seeds@[k] && #[trigger] under(ss, j as int, k);
                    lemma_under_live(ss, j as int, k);
                }
            }
        }
        marks.push(m);
        j = j + 1;
    }
    marks
}

/// Taking out every slot at or below a picked slot keeps the structure, as long
/// as the root is not taken out.
proof fn lemma_without_wf<S, P: Process<S>>(slots: Slots<S, P>, seeds: Seq<bool>)
    requires
        slots_wf(slots),
        seeds.len() == slots.len(),
        !covered(slots, seeds, 0),
    ensures
        slots_wf(without(slots, seeds)),
        forall|j: int| #[trigger] live(without(slots, seeds), j) <==> live(slots, j) && !covered(slots, seeds, j),
{
    let w = without(slots, seeds);
    assert forall|j: int| 0 < j < w.len() && #[trigger] live(w, j) implies parent_of(w, j) < j && live(
        w,
        parent_of(w, j),
    ) by {
        assert(w[j] == slots[j]);
        assert(live(slots, j));
        let p = parent_of(slots, j);
        if covered(slots, seeds, p) {
            let k = choose|k: int| 0 <= k < seeds.len() && seeds[k] && #[trigger] under(slots, p, k);
            lemma_under_step(slots, j, k);
            assert(under(slots, j, k));
            assert(covered(slots, seeds, j));
        }
        assert(w[p] == slots[p]);
    }
    assert forall|i: int, j: int| live(w, i) && live(w, j) && i != j implies name_of(w, i) != name_of(w, j) by {
        assert(w[i] == slots[i] && w[j] == slots[j]);
        assert(live(slots, i) && live(slots, j));
        assert(name_of(w, i) == name_of(slots, i) && name_of(w, j) == name_of(slots, j));
    }
    assert forall|j: int| #[trigger] live(w, j) implies events_sorted(slot(w, j).events@) by {
        assert(w[j] == slots[j]);
        assert(live(slots, j));
    }
}

/// Takes out every slot that `marks` marks.
pub(crate) fn clear_marked<S, P: Process<S>>(slots: &mut Vec<Option<Slot<S, P>>>, marks: &Vec<bool>, seeds: Ghost<Seq<bool>>)
    requires
        slots_wf(old(slots)@),
        seeds@.len() == old(slots)@.len(),
        marks@.len() == old(slots)@.len(),
        forall|j: int| 0 <= j < old(slots)@.len() ==> marks@[j] == covered(old(slots)@, seeds@, j),
        !covered(old(slots)@, seeds@, 0),
    ensures
        final(slots)@ == without(old(slots)@, seeds@),
        slots_wf(final(slots)@),
{
    let ghost target = without(slots@, seeds@);
    proof {
        lemma_without_wf(slots@, seeds@);
    }
    let mut j: usize = 0;
    while j < slots.len()
        invariant
            slots@.len() == target.len(),
            marks@.len() == target.len(),
            j <= slots@.len(),
            forall|i: int| 0 <= i < j ==> slots@[i] == target[i],
            forall|i: int| j <= i < slots@.len() ==> slots@[i] == old(slots)@[i],
            forall|i: int| 0 <= i < target.len() ==> marks@[i] == covered(old(slots)@, seeds@, i),
            target == without(old(slots)@, seeds@),
        decreases slots@.len() - j,
    {
        if marks[j] {
            slots.set(j, None);
        }
        j = j + 1;
    }
    assert(slots@ =~= target);
}

/// Slot `q` of an incoming tree, moved to stand after `base` slots; its root
/// hangs below `target`.
pub open spec fn shifted<S, P: Process<S>>(item: Option<Slot<S, P>>, q: int, target: int, base: int) -> Option<Slot<S, P>> {
    match item {
        None => None,
        Some(s) => Some(
            Slot { parent: (if q == 0 { target } else { s.parent + base }) as usize, ..s },
        ),
    }
}

/// `slots` with the tree `incoming` appended below slot `target`.
pub open spec fn grafted<S, P: Process<S>>(slots: Slots<S, P>, incoming: Slots<S, P>, target: int) -> Slots<S, P> {
    slots + Seq::new(incoming.len(), |q: int| shifted(incoming[q], q, target, slots.len() as int))
}

proof fn lemma_grafted_wf<S, P: Process<S>>(slots: Slots<S, P>, incoming: Slots<S, P>, target: int)
    requires
        slots_wf(slots),
        slots_wf(incoming),
        live(slots, target),
        slots.len() + incoming.len() <= usize::MAX,
        forall|n: Seq<char>| !(names_of(slots).contains(n) && names_of(incoming).contains(n)),
    ensures
        slots_wf(grafted(slots, incoming, target)),
        names_of(grafted(slots, incoming, target)) == names_of(slots) + names_of(incoming),
{
    let g = grafted(slots, incoming, target);
    let base = slots.len() as int;
    assert forall|j: int| 0 <= j < g.len() implies #[trigger] live(g, j) == (if j < base {
        live(slots, j)
    } else {
        live(incoming, j - base)
    }) && (live(g, j) ==> slot(g, j).name == (if j < base {
        slot(slots, j).name
    } else {
        slot(incoming, j - base).name
    }) && slot(g, j).events == (if j < base {
        slot(slots, j).events
    } else {
        slot(incoming, j - base).events
    })) by {
        if j >= base {
            assert(g[j] == shifted(incoming[j - base], j - base, target, base));
        }
    }
    assert forall|j: int| 0 < j < g.len() && #[trigger] live(g, j) implies parent_of(g, j) < j && live(
        g,
        parent_of(g, j),
    ) by {
        if j < base {
            assert(live(slots, j));
        } else {
            let q = j - base;
            assert(live(incoming, q));
            assert(g[j] == shifted(incoming[q], q, target, base));
            if q > 0 {
                assert(parent_of(g, j) == parent_of(incoming, q) + base);
                assert(live(g, parent_of(incoming, q) + base));
            }
        }
    }
    assert forall|i: int, j: int| live(g, i) && live(g, j) && i != j implies name_of(g, i) != name_of(
        g,
        j,
    ) by {
        assert(live(g, i) && live(g, j));
        if i < base && j < base {
            assert(name_of(slots, i) != name_of(slots, j));
        } else if i >= base && j >= base {
            assert(name_of(incoming, i - base) != name_of(incoming, j - base));
        } else if i < base {
            assert(names_of(slots).contains(name_of(slots, i)));
            assert(names_of(incoming).contains(name_of(incoming, j - base)));
        } else {
            assert(names_of(incoming).contains(name_of(incoming, i - base)));
            assert(names_of(slots).contains(name_of(slots, j)));
        }
    }
    assert forall|j: int| #[trigger] live(g, j) implies events_sorted(slot(g, j).events@) by {
        if j < base {
            assert(live(slots, j));
        } else {
            assert(live(incoming, j - base));
        }
    }
    assert(live(g, 0));
    assert(parent_of(g, 0) == 0);
    assert forall|n: Seq<char>| names_of(g).contains(n) == (names_of(slots) + names_of(incoming)).contains(n) by {
        if names_of(g).contains(n) {
            let j = choose|j: int| live(g, j) && name_of(g, j) == n;
            if j < base {
                assert(names_of(slots).contains(n));
            } else {
                assert(names_of(incoming).contains(n));
            }
        }
        if names_of(slots).contains(n) {
            let j = choose|j: int| live(slots, j) && name_of(slots, j) == n;
            assert(live(g, j) && name_of(g, j) == n);
        }
        if names_of(incoming).contains(n) {
            let j = choose|j: int| live(incoming, j) && name_of(incoming, j) == n;
            assert(live(g, j + base) && name_of(g, j + base) == n);
        }
    }
    assert(names_of(g) =~= names_of(slots) + names_of(incoming));
}

/// After the slots named in `names` are taken out with all below them, no
/// live slot bears one of those names.
pub(crate) proof fn lemma_without_named<S, P: Process<S>>(slots: Slots<S, P>, names: Set<Seq<char>>)
    requires
        slots_wf(slots),
    ensures
        forall|n: Seq<char>|
            !(names_of(without(slots, named(slots, names))).contains(n) && #[trigger] names.contains(n)),
{
    let seeds = named(slots, names);
    let w = without(slots, seeds);
    assert forall|n: Seq<char>| !(names_of(w).contains(n) && #[trigger] names.contains(n)) by {
        if names_of(w).contains(n) && names.contains(n) {
            let j = choose|j: int| live(w, j) && name_of(w, j) == n;
            assert(w[j] == slots[j]);
            assert(seeds[j]);
            assert(under(slots, j, j));
        }
    }
}

/// Taking out the slots named in a set that no live slot bears changes nothing.
pub(crate) proof fn lemma_without_disjoint<S, P: Process<S>>(slots: Slots<S, P>, names: Set<Seq<char>>)
    requires
        names_of(slots).disjoint(names),
    ensures
        without(slots, named(slots, names)) == slots,
{
    let seeds = named(slots, names);
    assert forall|j: int| 0 <= j < slots.len() implies !covered(slots, seeds, j) by {
        if covered(slots, seeds, j) {
            let k = choose|k: int| 0 <= k < seeds.len() && seeds[k] && #[trigger] under(slots, j, k);
            assert(names_of(slots).contains(name_of(slots, k)));
        }
    }
    assert(without(slots, seeds) =~= slots);
}

/// Hangs the tree `incoming` below slot `target`. Every slot whose name
/// `incoming` also holds is taken out first, with all below it, so that names
/// stay unique; if that would take out `target` itself, nothing changes.
pub(crate) fn graft<S, P: Process<S>>(slots: &mut Vec<Option<Slot<S, P>>>, target: usize, incoming: Node<S, P>) -> (r: bool)
    requires
        slots_wf(old(slots)@),
    ensures
        slots_wf(final(slots)@),
        r == (live(old(slots)@, target as int) && !covered(
            old(slots)@,
            named(old(slots)@, incoming.names()),
            target as int,
        )),
        r ==> final(slots)@ == grafted(
            without(old(slots)@, named(old(slots)@, incoming.names())),
            incoming.slots@,
            target as int,
        ),
        r ==> names_of(final(slots)@) == names_of(
            without(old(slots)@, named(old(slots)@, incoming.names())),
        ) + incoming.names(),
        !r ==> final(slots)@ == old(slots)@,
{
    proof {
        use_type_invariant(&incoming);
    }
    let ghost names = incoming.names();
    let mut inc = incoming.slots;
    let ghost inc0 = inc@;
    let ghost seeds_spec = named(slots@, names);
    let mut seeds: Vec<bool> = Vec::new();
    let mut j: usize = 0;
    while j < slots.len()
        invariant
            slots_wf(slots@),
            slots_wf(inc@),
            names == names_of(inc@),
            seeds_spec == named(slots@, names),
            j <= slots@.len(),
            seeds@.len() == j,
            forall|i: int| 0 <= i < j ==> seeds@[i] == seeds_spec[i],
        decreases slots@.len() - j,
    {
        let seed = match &slots[j] {
            Some(s) => find_slot(&inc, &s.name).is_some(),
            None => false,
        };
        seeds.push(seed);
        j = j + 1;
    }
    assert(seeds@ =~= seeds_spec);
    let marks = mark_subtrees(slots, &seeds);
    if target >= slots.len() {
        return false;
    }
    let target_live = match &slots[target] {
        Some(_) => true,
        None => false,
    };
    if !target_live || marks[target] {
        return false;
    }
    proof {
        if covered(slots@, seeds@, 0) {
            let k = choose|k: int| 0 <= k < seeds@.len() && seeds@[k] && #[trigger] under(slots@, 0, k);
            lemma_under_live(slots@, 0, k);
            lemma_under_root(slots@, target as int);
            assert(under(slots@, target as int, 0));
            assert(covered(slots@, seeds@, target as int));
        }
        lemma_without_named(slots@, names);
    }
    clear_marked(slots, &marks, Ghost(seeds@));
    let ghost cleared = slots@;
    let base = slots.len();
    let inc_len = inc.len();
    let mut q: usize = 0;
    while q < inc_len
        invariant
            base == cleared.len(),
            inc_len == inc0.len(),
            q <= inc_len,
            slots_wf(inc0),
            inc@ == inc0.subrange(q as int, inc_len as int),
            slots@.len() == base + q,
            forall|i: int| 0 <= i < base ==> slots@[i] == cleared[i],
            forall|x: int| 0 <= x < q ==> slots@[base + x] == shifted(inc0[x], x, target as int, base as int),
            target < base,
        decreases inc_len - q,
    {
        let item = inc.remove(0);
        assert(item == inc0[q as int]);
        match item {
            Some(mut s) => {
                if q == 0 {
                    s.parent = target;
                } else {
                    assert(live(inc0, q as int));
                    assert(s.parent < q);
                    let filled = slots.len();
                    assert(s.parent + base < filled);
                    s.parent = s.parent + base;
                }
                slots.push(Some(s));
            },
            None => {
                slots.push(None);
            },
        }
        q = q + 1;
    }
    let total = slots.len();
    proof {
        assert(total == cleared.len() + inc0.len());
        assert(slots@ =~= grafted(cleared, inc0, target as int));
        lemma_grafted_wf(cleared, inc0, target as int);
    }
    true
}

/// Changing the node of one slot, keeping its name, its parent and a sorted
/// queue, keeps the structure and the names.
pub(crate) proof fn lemma_one_slot_changed<S, P: Process<S>>(s0: Slots<S, P>, ss: Slots<S, P>, k: int)
    requires
        slots_wf(s0),
        live(s0, k),
        ss.len() == s0.len(),
        forall|j: int| 0 <= j < s0.len() && j != k ==> ss[j] == s0[j],
        live(ss, k),
        slot(ss, k).name == slot(s0, k).name,
        slot(ss, k).parent == slot(s0, k).parent,
        events_sorted(slot(ss, k).events@),
    ensures
        slots_wf(ss),
        names_of(ss) == names_of(s0),
        forall|j: int| #[trigger] live(ss, j) == live(s0, j),
{
    assert forall|j: int| #[trigger] live(ss, j) == live(s0, j) by {
        if j != k && 0 <= j < s0.len() {
            assert(ss[j] == s0[j]);
        }
    }
    assert forall|j: int| 0 < j < ss.len() && #[trigger] live(ss, j) implies parent_of(ss, j) < j
        && live(ss, parent_of(ss, j)) by {
        assert(live(s0, j));
        assert(live(s0, parent_of(s0, j)));
        assert(live(ss, parent_of(s0, j)));
    }
    assert forall|a: int, b: int| live(ss, a) && live(ss, b) && a != b implies name_of(ss, a) != name_of(ss, b) by {
        assert(live(s0, a) && live(s0, b));
        assert(name_of(ss, a) == name_of(s0, a) && name_of(ss, b) == name_of(s0, b));
    }
    assert forall|j: int| #[trigger] live(ss, j) implies events_sorted(slot(ss, j).events@) by {
        assert(live(s0, j));
    }
    assert forall|n: Seq<char>| names_of(ss).contains(n) == names_of(s0).contains(n) by {
        if names_of(ss).contains(n) {
            let j = choose|j: int| live(ss, j) && name_of(ss, j) == n;
            assert(live(s0, j) && name_of(s0, j) == n);
        }
        if names_of(s0).contains(n) {
            let j = choose|j: int| live(s0, j) && name_of(s0, j) == n;
            assert(live(ss, j) && name_of(ss, j) == n);
        }
    }
    assert(names_of(ss) =~= names_of(s0));
}

/// Puts `event` into the queue of live slot `k`, in due order.
pub(crate) fn queue_event<S, P: Process<S>>(slots: &mut Vec<Option<Slot<S, P>>>, k: usize, event: Event<S, P>)
    requires
        slots_wf(old(slots)@),
        live(old(slots)@, k as int),
    ensures
        slots_wf(final(slots)@),
        names_of(final(slots)@) == names_of(old(slots)@),
        final(slots)@.len() == old(slots)@.len(),
        forall|j: int| 0 <= j < old(slots)@.len() && j != k ==> final(slots)@[j] == old(slots)@[j],
        live(final(slots)@, k as int),
        slot(final(slots)@, k as int).name == slot(old(slots)@, k as int).name,
        slot(final(slots)@, k as int).parent == slot(old(slots)@, k as int).parent,
        slot(final(slots)@, k as int).on == slot(old(slots)@, k as int).on,
        slot(final(slots)@, k as int).stage == slot(old(slots)@, k as int).stage,
        slot(final(slots)@, k as int).block == slot(old(slots)@, k as int).block,
        slot(final(slots)@, k as int).events@ == slot(old(slots)@, k as int).events@.insert(
            slot_for(slot(old(slots)@, k as int).events@, event.idx()),
            event,
        ),
{
    let ghost old_slots = slots@;
    proof {
        assert(live(old_slots, k as int));
    }
    match &mut slots[k] {
        Some(s) => {
            insert_event(&mut s.events, event);
        },
        None => {},
    }
    proof {
        lemma_one_slot_changed(old_slots, slots@, k as int);
    }
}

/// A processing node with its inputs, each input a node in turn.
pub struct Node<S, P: Process<S>> {
    pub(crate) slots: Vec<Option<Slot<S, P>>>,
}

impl<S, P: Process<S>> Node<S, P> {
    #[verifier::type_invariant]
    pub(crate) open spec fn inv(&self) -> bool {
        slots_wf(self.slots@)
    }

    /// The node's own name.
    pub closed spec fn name(&self) -> Seq<char> {
        name_of(self.slots@, 0)
    }

    /// The names of the node and of all the nodes below it.
    pub closed spec fn names(&self) -> Set<Seq<char>> {
        names_of(self.slots@)
    }

    /// The node's own pending events, the first due last.
    pub closed spec fn events(&self) -> Seq<Event<S, P>> {
        slot(self.slots@, 0).events@
    }

    /// The names of the nodes of this tree that do not stand at or below a
    /// node named in `names`.
    pub closed spec fn kept_names(&self, names: Set<Seq<char>>) -> Set<Seq<char>> {
        names_of(without(self.slots@, named(self.slots@, names)))
    }

    /// Adds `input`, with its own inputs, as an input of this node. A node of
    /// this tree that bears a name that `input` holds is replaced: it leaves,
    /// with its own inputs, before `input` is added. If `input` holds this
    /// node's own name, nothing changes.
    pub fn add_input(&mut self, input: Node<S, P>) -> (r: &mut Self)
        ensures
            input.names().contains(old(self).name()) ==> r.names() == old(self).names(),
            !input.names().contains(old(self).name()) ==> r.names() == old(self).kept_names(
                input.names(),
            ) + input.names(),
            old(self).names().disjoint(input.names()) ==> r.names() == old(self).names()
                + input.names(),
            !input.names().contains(old(self).name()) ==> r.is_input(input.name()),
            r.name() == old(self).name(),
            r.is_on() == old(self).is_on(),
            r.events() == old(self).events(),
            r.stage() == old(self).stage(),
            *final(self) == *final(r),
    {
        proof {
            use_type_invariant(&*self);
            use_type_invariant(&input);
            let ss = self.slots@;
            let seeds = named(ss, input.names());
            if covered(ss, seeds, 0) {
                let k = choose|k: int| 0 <= k < seeds.len() && seeds[k] && #[trigger] under(ss, 0, k);
                lemma_under_live(ss, 0, k);
            }
            if seeds[0] {
                assert(under(ss, 0, 0));
            }
        }
        let ghost old_self = *self;
        let ghost inc = input.slots@;
        let ghost in_name = input.name();
        let mut slots = self.take_slots();
        let ghost s0 = slots@;
        proof {
            if names_of(s0).disjoint(input.names()) {
                lemma_without_disjoint(s0, input.names());
            }
        }
        let added = graft(&mut slots, 0, input);
        proof {
            if added {
                assert(slots@[0] == old_self.slots@[0]);
                let base = without(s0, named(s0, names_of(inc))).len() as int;
                assert(slots@[base] == shifted(inc[0], 0, 0, base));
                assert(live(inc, 0));
                assert(live(slots@, base) && name_of(slots@, base) == in_name && parent_of(slots@, base) == 0);
            }
        }
        *self = Node { slots };
        self
    }

    /// Puts `event` into this node's own queue, in due order.
    pub fn register_event(&mut self, event: Event<S, P>)
        ensures
            final(self).name() == old(self).name(),
            final(self).is_on() == old(self).is_on(),
            final(self).stage() == old(self).stage(),
            final(self).names() == old(self).names(),
            final(self).events() == old(self).events().insert(
                slot_for(old(self).events(), event.idx()),
                event,
            ),
    {
        proof {
            use_type_invariant(&*self);
        }
        let mut slots = self.take_slots();
        queue_event(&mut slots, 0, event);
        *self = Node { slots };
    }

    /// How the node computes its samples.
    pub closed spec fn stage(&self) -> Stage<P> {
        slot(self.slots@, 0).stage
    }

    /// The node called `child` is an input of this node.
    pub closed spec fn is_input(&self, child: Seq<char>) -> bool {
        exists|j: int|
            0 < j && live(self.slots@, j) && name_of(self.slots@, j) == child && parent_of(
                self.slots@,
                j,
            ) == 0
    }

    /// What the name and the names of a node are in its slots.
    pub(crate) proof fn lemma_names(&self)
        ensures
            self.name() == name_of(self.slots@, 0),
            self.names() == names_of(self.slots@),
    {
    }

    /// Whether the node is switched on.
    pub closed spec fn is_on(&self) -> bool {
        slot(self.slots@, 0).on
    }

    /// Applies `event` to this node at once, whatever its index: an on or off
    /// event switches the node, an update goes to the processor, an added input joins
    /// as by `add_input`.
    pub(crate) fn play(&mut self, event: Event<S, P>)
        ensures
            final(self).name() == old(self).name(),
            final(self).events() == old(self).events(),
            event is NoteOn ==> final(self).is_on(),
            event is NoteOff ==> !final(self).is_on(),
            event is UpdateParams ==> final(self).is_on() == old(self).is_on(),
            !(event is AddInput) ==> final(self).names() == old(self).names(),
            event is NoteOn || event is NoteOff ==> final(self).stage() == old(self).stage(),
            event matches Event::UpdateParams { update, .. } ==> match old(self).stage() {
                Stage::Unit(p) => P::modeled() ==> final(self).stage() == Stage::<P>::Unit(
                    p.spec_apply(update),
                ),
                Stage::Root(r) => final(self).stage() == Stage::<P>::Root(r),
            },
            event matches Event::AddInput { node, .. } ==> {
                &&& final(self).is_on() == old(self).is_on()
                &&& final(self).stage() == old(self).stage()
                &&& node.names().contains(old(self).name()) ==> final(self).names() == old(self).names()
                &&& !node.names().contains(old(self).name()) ==> final(self).names() == old(
                    self,
                ).kept_names(node.names()) + node.names()
            },
    {
        proof {
            use_type_invariant(&*self);
        }
        let ghost old_self = *self;
        let mut slots = self.take_slots();
        let ghost s0 = slots@;
        let mut cur: Option<Slot<S, P>> = None;
        match event {
            Event::AddInput { node, .. } => {
                proof {
                    use_type_invariant(&node);
                    let seeds = named(s0, node.names());
                    if covered(s0, seeds, 0) {
                        let k = choose|k: int| 0 <= k < seeds.len() && seeds[k] && #[trigger] under(s0, 0, k);
                        lemma_under_live(s0, 0, k);
                    }
                    if seeds[0] {
                        assert(under(s0, 0, 0));
                    }
                }
                let added = graft(&mut slots, 0, node);
                proof {
                    if added {
                        assert(slots@[0] == s0[0]);
                    }
                }
            },
            other => {
                slots.set_and_swap(0, &mut cur);
                let mut s = match cur {
                    Some(s) => s,
                    None => vstd::pervasive::unreached(),
                };
                match other {
                    Event::NoteOn { .. } => {
                        s.on = true;
                    },
                    Event::NoteOff { .. } => {
                        s.on = false;
                    },
                    Event::UpdateParams { update, .. } => match &mut s.stage {
                        Stage::Unit(p) => p.apply(&update),
                        Stage::Root(_) => {},
                    },
                    Event::AddInput { .. } => {},
                }
                slots.set(0, Some(s));
                proof {
                    assert(live(s0, 0));
                    lemma_one_slot_changed(s0, slots@, 0);
                }
            },
        }
        *self = Node { slots };
    }

    /// Moves the slots out, leaving a bare root in their place.
    pub(crate) fn take_slots(&mut self) -> (r: Vec<Option<Slot<S, P>>>)
        ensures
            r@ == old(self).slots@,
            slots_wf(r@),
    {
        proof {
            use_type_invariant(&*self);
        }
        let mut bare: Vec<Option<Slot<S, P>>> = Vec::new();
        bare.push(
            Some(
                Slot {
                    name: String::new(),
                    stage: Stage::Root(Sentinel),
                    on: true,
                    parent: 0,
                    events: Vec::new(),
                    block: Vec::new(),
                },
            ),
        );
        let mut other = Node { slots: bare };
        std::mem::swap(self, &mut other);
        proof {
            use_type_invariant(&other);
        }
        other.slots
    }

    /// A node called `name` around `processor`: switched on, with no inputs and
    /// no events.
    pub fn new(name: &str, processor: P) -> (n: Self)
        ensures
            n.name() == name@,
            n.names() == set![name@],
            n.is_on(),
            n.events() == Seq::<Event<S, P>>::empty(),
            n.stage() == Stage::<P>::Unit(processor),
    {
        let slot = Slot {
            name: name.to_string(),
            stage: Stage::Unit(processor),
            on: true,
            parent: 0,
            events: Vec::new(),
            block: Vec::new(),
        };
        let mut slots: Vec<Option<Slot<S, P>>> = Vec::new();
        slots.push(Some(slot));
        let n = Node { slots };
        assert(n.names() =~= set![name@]);
        n
    }

    /// The node's own name.
    pub fn get_name(&self) -> (r: &str)
        ensures
            r@ == self.name(),
    {
        proof {
            use_type_invariant(self);
        }
        match &self.slots[0] {
            Some(s) => s.name.as_str(),
            None => "",
        }
    }
}

} // verus!
