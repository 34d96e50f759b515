use vstd::prelude::*;

use crate::event::Event;
use crate::node::{events_sorted, live, name_of, parent_of, slot, slots_wf, Node, Slot, Slots, Stage};
use crate::process::{Process, Sample};

verus! {

/// Whether a node is on after an event has fired.
pub open spec fn switched<S, P: Process<S>>(on: bool, e: Event<S, P>) -> bool {
    match e {
        Event::NoteOn { .. } => true,
        Event::NoteOff { .. } => false,
        _ => on,
    }
}

/// Whether a node is on after every event of the queue due at or before `limit` has
/// fired, the last of the queue first.
pub open spec fn on_at<S, P: Process<S>>(on: bool, events: Seq<Event<S, P>>, limit: int) -> bool
    decreases events.len(),
{
    if events.len() == 0 {
        on
    } else if events.last().idx() <= limit {
        on_at(switched(on, events.last()), events.drop_last(), limit)
    } else {
        on
    }
}

/// What stays of the queue once every event due at or before `limit` has fired.
pub open spec fn pending_at<S, P: Process<S>>(events: Seq<Event<S, P>>, limit: int) -> Seq<Event<S, P>>
    decreases events.len(),
{
    if events.len() == 0 {
        events
    } else if events.last().idx() <= limit {
        pending_at(events.drop_last(), limit)
    } else {
        events
    }
}

/// An event that adds an input is due at or before `limit`.
pub open spec fn adds_due<S, P: Process<S>>(events: Seq<Event<S, P>>, limit: int) -> bool {
    exists|k: int| 0 <= k < events.len() && events[k].idx() <= limit && #[trigger] events[k] is AddInput
}

/// The inputs of slot `i` among the first `upto` slots, in slot order.
pub open spec fn inputs_below<S, P: Process<S>>(slots: Slots<S, P>, i: int, upto: int) -> Seq<int>
    decreases upto,
{
    if upto <= 0 {
        Seq::empty()
    } else {
        let prev = inputs_below(slots, i, upto - 1);
        let j = upto - 1;
        if live(slots, j) && j != i && parent_of(slots, j) == i {
            prev.push(j)
        } else {
            prev
        }
    }
}

/// The inputs of slot `i`, in slot order.
pub open spec fn inputs_of<S, P: Process<S>>(slots: Slots<S, P>, i: int) -> Seq<int> {
    inputs_below(slots, i, slots.len() as int)
}

pub(crate) proof fn lemma_inputs_below<S, P: Process<S>>(slots: Slots<S, P>, i: int, upto: int)
    requires
        slots_wf(slots),
        upto <= slots.len(),
    ensures
        forall|x: int|
            0 <= x < inputs_below(slots, i, upto).len() ==> {
                let c = #[trigger] inputs_below(slots, i, upto)[x];
                &&& live(slots, c)
                &&& i < c < upto
                &&& parent_of(slots, c) == i
            },
    decreases upto,
{
    if upto > 0 {
        lemma_inputs_below(slots, i, upto - 1);
        let j = upto - 1;
        let prev = inputs_below(slots, i, upto - 1);
        if live(slots, j) && j != i && parent_of(slots, j) == i {
            if j > 0 {
                assert(parent_of(slots, j) < j);
            }
            assert forall|x: int| 0 <= x < prev.len() implies #[trigger] prev.push(j)[x] == prev[x] by {
            }
        }
    }
}

/// The indices of the inputs of slot `i`, in slot order.
fn collect_inputs<S, P: Process<S>>(slots: &Vec<Option<Slot<S, P>>>, i: usize) -> (r: Vec<usize>)
    requires
        slots_wf(slots@),
    ensures
        r@.len() == inputs_of(slots@, i as int).len(),
        forall|x: int| 0 <= x < r@.len() ==> r@[x] as int == inputs_of(slots@, i as int)[x],
{
    let mut r: Vec<usize> = Vec::new();
    let mut j: usize = 0;
    while j < slots.len()
        invariant
            j <= slots@.len(),
            r@.len() == inputs_below(slots@, i as int, j as int).len(),
            forall|x: int| 0 <= x < r@.len() ==> r@[x] as int == inputs_below(slots@, i as int, j as int)[x],
        decreases slots@.len() - j,
    {
        let is_input = match &slots[j] {
            Some(s) => j != i && s.parent == i,
            None => false,
        };
        if is_input {
            r.push(j);
        }
        j = j + 1;
    }
    r
}

/// Sample `t` of the block of slot `c`.
fn sample_of<S: Copy, P: Process<S>>(slots: &Vec<Option<Slot<S, P>>>, c: usize, t: usize) -> (r: S)
    requires
        live(slots@, c as int),
        t < slot(slots@, c as int).block@.len(),
    ensures
        r == slot(slots@, c as int).block@[t as int],
{
    match &slots[c] {
        Some(s) => s.block[t],
        None => vstd::pervasive::unreached(),
    }
}

/// The block that the first input of slot `i` holds, if slot `i` has an input.
pub open spec fn first_input_block<S, P: Process<S>>(slots: Slots<S, P>, i: int) -> Option<Seq<S>> {
    if inputs_of(slots, i).len() > 0 {
        Some(slot(slots, inputs_of(slots, i)[0]).block@)
    } else {
        None
    }
}

/// The blocks of the inputs of slot `i`, in slot order.
pub open spec fn input_blocks<S, P: Process<S>>(slots: Slots<S, P>, i: int) -> Seq<Seq<S>> {
    Seq::new(inputs_of(slots, i).len(), |x: int| slot(slots, inputs_of(slots, i)[x]).block@)
}

/// Sample `t` of each of `blocks`.
pub open spec fn column<S>(blocks: Seq<Seq<S>>, t: int) -> Seq<S> {
    Seq::new(blocks.len(), |x: int| blocks[x][t])
}

/// The processor once `e` is applied to it.
pub open spec fn touched<S, P: Process<S>>(p: P, e: Event<S, P>) -> P {
    match e {
        Event::UpdateParams { update, .. } => p.spec_apply(update),
        _ => p,
    }
}

/// The processor once every update of the queue due at or before `limit`
/// is applied, the last of the queue first.
pub open spec fn updated_at<S, P: Process<S>>(p: P, events: Seq<Event<S, P>>, limit: int) -> P
    decreases events.len(),
{
    if events.len() == 0 {
        p
    } else if events.last().idx() <= limit {
        updated_at(touched(p, events.last()), events.drop_last(), limit)
    } else {
        p
    }
}

/// The queue of a pass from `cursor` just before the events of sample `t` fire.
pub open spec fn queue_before<S, P: Process<S>>(events: Seq<Event<S, P>>, cursor: int, t: int) -> Seq<Event<S, P>> {
    if t == 0 {
        events
    } else {
        pending_at(events, cursor + t - 1)
    }
}

/// The processor after a step on `inputs` if the node is on.
pub open spec fn stepped<S, P: Process<S>>(p: P, on: bool, inputs: Seq<S>) -> P {
    if on {
        p.spec_next(inputs).0
    } else {
        p
    }
}

/// The processor of a pass from `cursor` once its first `t` samples are
/// computed, on the input blocks `ins`, from `p` with the queue `events` and
/// the on state `on`.
pub open spec fn state_after<S, P: Process<S>>(
    p: P,
    events: Seq<Event<S, P>>,
    on: bool,
    cursor: int,
    ins: Seq<Seq<S>>,
    t: nat,
) -> P
    decreases t,
{
    if t == 0 {
        p
    } else {
        let u = (t - 1) as nat;
        stepped(
            updated_at(state_after(p, events, on, cursor, ins, u), queue_before(events, cursor, u as int), cursor + u),
            on_at(on, events, cursor + u),
            column(ins, u as int),
        )
    }
}

/// The processor of that pass when it computes sample `t`: the updates due
/// at or before it have been applied.
pub open spec fn state_before<S, P: Process<S>>(
    p: P,
    events: Seq<Event<S, P>>,
    on: bool,
    cursor: int,
    ins: Seq<Seq<S>>,
    t: nat,
) -> P {
    updated_at(state_after(p, events, on, cursor, ins, t), queue_before(events, cursor, t as int), cursor + t)
}

/// `after` is `before` once it has run a pass of `n` samples from the
/// absolute index `cursor`, with `first` the block of its first input and
/// `ins` the blocks of all its inputs. A processor whose methods follow its
/// spec functions computes each sample where the node is on from one sample
/// of each input, with the updates due by then applied.
pub open spec fn ran<S, P: Process<S>>(
    before: Slot<S, P>,
    after: Slot<S, P>,
    n: int,
    cursor: int,
    silence: S,
    first: Option<Seq<S>>,
    ins: Seq<Seq<S>>,
) -> bool {
    &&& after.name == before.name
    &&& after.parent == before.parent
    &&& (after.stage is Root) == (before.stage is Root)
    &&& after.block@.len() == n
    &&& n > 0 ==> after.events@ == pending_at(before.events@, cursor + n - 1) && after.on == on_at(
        before.on,
        before.events@,
        cursor + n - 1,
    )
    &&& n == 0 ==> after.events@ == before.events@ && after.on == before.on
    &&& forall|t: int|
        0 <= t < n && !on_at(before.on, before.events@, cursor + t) ==> #[trigger] after.block@[t]
            == silence
    &&& before.stage is Root ==> forall|t: int|
        0 <= t < n && on_at(before.on, before.events@, cursor + t) ==> #[trigger] after.block@[t]
            == match first {
            Some(b) => b[t],
            None => silence,
        }
    &&& P::modeled() && before.stage is Unit && n >= 0 ==> {
        let p = before.stage->Unit_0;
        &&& after.stage == Stage::Unit(
            state_after(p, before.events@, before.on, cursor, ins, n as nat),
        )
        &&& forall|t: int|
            0 <= t < n && on_at(before.on, before.events@, cursor + t) ==> #[trigger] after.block@[t]
                == state_before(p, before.events@, before.on, cursor, ins, t as nat).spec_next(
                column(ins, t),
            ).1
    }
}

/// Whether the last event of the queue is due at or before `limit`.
fn next_due<S, P: Process<S>>(events: &Vec<Event<S, P>>, limit: usize) -> (r: bool)
    ensures
        r == (events@.len() > 0 && events@.last().idx() <= limit),
{
    if events.len() == 0 {
        false
    } else {
        events[events.len() - 1].get_sample_idx().0 <= limit
    }
}

/// Runs slot `i` over `n` samples from the absolute index `cursor`. Before each
/// sample, the events due at or before it fire: an on or off event switches the node, an
/// update goes to the processor, an added input is handed out through `added`.
/// The sample is then computed from one sample of each input if the node is
/// on, and is `silence` if it is off.
fn run_slot<S: Copy, P: Process<S>>(
    slots: &mut Vec<Option<Slot<S, P>>>,
    i: usize,
    n: usize,
    cursor: usize,
    silence: S,
    added: &mut Vec<(usize, Node<S, P>)>,
)
    requires
        slots_wf(old(slots)@),
        live(old(slots)@, i as int),
        cursor + n <= usize::MAX,
        forall|j: int|
            i < j < old(slots)@.len() && #[trigger] live(old(slots)@, j) ==> slot(old(slots)@, j).block@.len() == n,
    ensures
        slots_wf(final(slots)@),
        final(slots)@.len() == old(slots)@.len(),
        forall|j: int| 0 <= j < old(slots)@.len() && j != i ==> final(slots)@[j] == old(slots)@[j],
        live(final(slots)@, i as int),
        ran(
            slot(old(slots)@, i as int),
            slot(final(slots)@, i as int),
            n as int,
            cursor as int,
            silence,
            first_input_block(old(slots)@, i as int),
            input_blocks(old(slots)@, i as int),
        ),
        !adds_due(slot(old(slots)@, i as int).events@, cursor + n - 1) ==> final(added)@ == old(added)@,
{
    let ghost s0 = slots@;
    let ghost before = slot(s0, i as int);
    let ghost ev0 = before.events@;
    let ghost on0 = before.on;
    let ghost first = first_input_block(s0, i as int);
    let ghost ins = input_blocks(s0, i as int);
    let ghost added0 = added@;
    let inputs = collect_inputs(slots, i);
    proof {
        lemma_inputs_below(s0, i as int, s0.len() as int);
        assert(live(s0, i as int));
    }
    let mut cur: Option<Slot<S, P>> = None;
    slots.set_and_swap(i, &mut cur);
    let mut s = match cur {
        Some(s) => s,
        None => vstd::pervasive::unreached(),
    };
    let mut block: Vec<S> = Vec::new();
    let mut t: usize = 0;
    while t < n
        invariant
            slots@ == s0.update(i as int, None),
            slots_wf(s0),
            live(s0, i as int),
            before == slot(s0, i as int),
            ev0 == before.events@,
            on0 == before.on,
            first == first_input_block(s0, i as int),
            ins == input_blocks(s0, i as int),
            cursor + n <= usize::MAX,
            t <= n,
            P::modeled() && before.stage is Unit ==> s.stage == Stage::Unit(
                state_after(before.stage->Unit_0, ev0, on0, cursor as int, ins, t as nat),
            ),
            P::modeled() && before.stage is Unit ==> forall|u: int|
                0 <= u < t && on_at(on0, ev0, cursor + u) ==> #[trigger] block@[u] == state_before(
                    before.stage->Unit_0,
                    ev0,
                    on0,
                    cursor as int,
                    ins,
                    u as nat,
                ).spec_next(column(ins, u)).1,
            block@.len() == t,
            inputs@.len() == inputs_of(s0, i as int).len(),
            forall|x: int| 0 <= x < inputs@.len() ==> inputs@[x] as int == inputs_of(s0, i as int)[x],
            forall|x: int|
                0 <= x < inputs_of(s0, i as int).len() ==> {
                    let c = #[trigger] inputs_of(s0, i as int)[x];
                    &&& live(s0, c)
                    &&& i < c < s0.len()
                },
            forall|j: int| i < j < s0.len() && #[trigger] live(s0, j) ==> slot(s0, j).block@.len() == n,
            s.name == before.name,
            s.parent == before.parent,
            (s.stage is Root) == (before.stage is Root),
            ev0.len() >= s.events@.len(),
            s.events@ == ev0.subrange(0, s.events@.len() as int),
            events_sorted(s.events@),
            t == 0 ==> s.events@ == ev0 && s.on == on0,
            t > 0 ==> s.events@ == pending_at(ev0, cursor + t - 1) && s.on == on_at(on0, ev0, cursor + t - 1),
            forall|l: int| l >= cursor + t ==> #[trigger] on_at(on0, ev0, l) == on_at(s.on, s.events@, l),
            forall|l: int| l >= cursor + t ==> #[trigger] pending_at(ev0, l) == pending_at(s.events@, l),
            forall|u: int| 0 <= u < t && !on_at(on0, ev0, cursor + u) ==> #[trigger] block@[u] == silence,
            before.stage is Root ==> forall|u: int|
                0 <= u < t && on_at(on0, ev0, cursor + u) ==> #[trigger] block@[u] == match first {
                    Some(b) => b[u],
                    None => silence,
                },
            added@ != added0 ==> adds_due(ev0, cursor + t - 1),
        decreases n - t,
    {
        let mut input: Vec<S> = Vec::new();
        let mut x: usize = 0;
        while x < inputs.len()
            invariant
                slots@ == s0.update(i as int, None),
                x <= inputs@.len(),
                t < n,
                input@.len() == x,
                inputs@.len() == inputs_of(s0, i as int).len(),
                forall|y: int| 0 <= y < inputs@.len() ==> inputs@[y] as int == inputs_of(s0, i as int)[y],
                forall|y: int|
                    0 <= y < inputs_of(s0, i as int).len() ==> {
                        let c = #[trigger] inputs_of(s0, i as int)[y];
                        &&& live(s0, c)
                        &&& i < c < s0.len()
                    },
                forall|j: int| i < j < s0.len() && #[trigger] live(s0, j) ==> slot(s0, j).block@.len() == n,
                forall|y: int| 0 <= y < x ==> #[trigger] input@[y] == slot(s0, inputs_of(s0, i as int)[y]).block@[t as int],
            decreases inputs@.len() - x,
        {
            let c = inputs[x];
            proof {
                let cc = inputs_of(s0, i as int)[x as int];
                assert(live(s0, cc) && i < cc);
                assert(slots@[cc] == s0[cc]);
                assert(live(slots@, c as int));
            }
            let v = sample_of(slots, c, t);
            input.push(v);
            x = x + 1;
        }
        let limit = cursor + t;
        let ghost added_start = added@;
        while next_due(&s.events, limit)
            invariant
                ev0.len() >= s.events@.len(),
                s.events@ == ev0.subrange(0, s.events@.len() as int),
                events_sorted(s.events@),
                s.name == before.name,
                s.parent == before.parent,
                (s.stage is Root) == (before.stage is Root),
                limit == cursor + t,
                forall|l: int| l >= limit ==> #[trigger] on_at(on0, ev0, l) == on_at(s.on, s.events@, l),
                forall|l: int| l >= limit ==> #[trigger] pending_at(ev0, l) == pending_at(s.events@, l),
                added@ != added0 ==> adds_due(ev0, limit as int),
                P::modeled() && before.stage is Unit ==> s.stage is Unit && updated_at(
                    s.stage->Unit_0,
                    s.events@,
                    limit as int,
                ) == state_before(before.stage->Unit_0, ev0, on0, cursor as int, ins, t as nat),
            decreases s.events@.len(),
        {
            let ghost ev_before = s.events@;
            let ghost on_before = s.on;
            let ghost stage_before = s.stage;
            let popped = s.events.pop();
            proof {
                assert(ev_before.drop_last() =~= s.events@);
                assert forall|a: int, b: int| 0 <= a < b < s.events@.len() implies s.events@[a].idx() >= s.events@[b].idx() by {
                    assert(ev_before[a] == s.events@[a] && ev_before[b] == s.events@[b]);
                }
                assert(s.events@ =~= ev0.subrange(0, s.events@.len() as int));
            }
            match popped {
                Some(Event::NoteOn { .. }) => {
                    s.on = true;
                },
                Some(Event::NoteOff { .. }) => {
                    s.on = false;
                },
                Some(Event::UpdateParams { update, .. }) => {
                    match &mut s.stage {
                        Stage::Unit(p) => p.apply(&update),
                        Stage::Root(_) => {},
                    }
                },
                Some(Event::AddInput { node, .. }) => {
                    proof {
                        let k = ev_before.len() - 1;
                        assert(ev0[k] == ev_before.last());
                        assert(ev0[k] is AddInput);
                    }
                    added.push((i, node));
                },
                None => {},
            }
            proof {
                assert forall|l: int| l >= limit implies #[trigger] on_at(on0, ev0, l) == on_at(s.on, s.events@, l) by {
                    assert(on_at(on_before, ev_before, l) == on_at(switched(on_before, ev_before.last()), ev_before.drop_last(), l));
                }
                assert forall|l: int| l >= limit implies #[trigger] pending_at(ev0, l) == pending_at(s.events@, l) by {
                    assert(pending_at(ev_before, l) == pending_at(ev_before.drop_last(), l));
                }
                if P::modeled() && before.stage is Unit {
                    let pb = stage_before->Unit_0;
                    assert(s.stage->Unit_0 == touched(pb, ev_before.last()));
                    assert(updated_at(pb, ev_before, limit as int) == updated_at(
                        touched(pb, ev_before.last()),
                        ev_before.drop_last(),
                        limit as int,
                    ));
                }
            }
        }
        let ghost stage_mid = s.stage;
        proof {
            if P::modeled() && before.stage is Unit {
                assert(updated_at(s.stage->Unit_0, s.events@, limit as int) == s.stage->Unit_0);
                assert(input@ =~= column(ins, t as int));
            }
            assert(on_at(s.on, s.events@, limit as int) == s.on);
            assert(pending_at(s.events@, limit as int) == s.events@);
            assert(on_at(on0, ev0, limit as int) == s.on);
            assert(pending_at(ev0, limit as int) == s.events@);
        }
        let v = if s.on {
            match &mut s.stage {
                Stage::Root(r) => r.pass_through(input.as_slice(), silence),
                Stage::Unit(p) => p.process_next_value(input.as_slice()),
            }
        } else {
            silence
        };
        proof {
            if before.stage is Root && s.on {
                match first {
                    Some(b) => {
                        assert(input@.len() > 0);
                        assert(input@[0] == b[t as int]);
                    },
                    None => {
                        assert(input@.len() == 0);
                    },
                }
            }
        }
        block.push(v);
        t = t + 1;
    }
    s.block = block;
    slots.set(i, Some(s));
    proof {
        crate::node::lemma_one_slot_changed(s0, slots@, i as int);
    }
}

/// Some live slot has an event that adds an input due at or before `limit`.
pub open spec fn grows<S, P: Process<S>>(slots: Slots<S, P>, limit: int) -> bool {
    exists|j: int| #[trigger] live(slots, j) && adds_due(slot(slots, j).events@, limit)
}

/// Two sequences of slots with the same live slots and the same parents.
pub open spec fn same_shape<S, P: Process<S>>(a: Slots<S, P>, b: Slots<S, P>) -> bool {
    &&& a.len() == b.len()
    &&& forall|j: int| #[trigger] live(a, j) == live(b, j)
    &&& forall|j: int| live(a, j) ==> #[trigger] parent_of(a, j) == parent_of(b, j)
}

pub(crate) proof fn lemma_same_inputs<S, P: Process<S>>(a: Slots<S, P>, b: Slots<S, P>, i: int, upto: int)
    requires
        same_shape(a, b),
    ensures
        inputs_below(a, i, upto) == inputs_below(b, i, upto),
    decreases upto,
{
    if upto > 0 {
        lemma_same_inputs(a, b, i, upto - 1);
        assert(live(a, upto - 1) == live(b, upto - 1));
    }
}

/// Runs every live slot over `n` samples from the absolute index `cursor`,
/// inputs before the slots they feed, and returns the inputs that fired
/// events added, each with the slot it goes to.
pub(crate) fn run_pass<S: Copy, P: Process<S>>(
    slots: &mut Vec<Option<Slot<S, P>>>,
    n: usize,
    cursor: usize,
    silence: S,
) -> (added: Vec<(usize, Node<S, P>)>)
    requires
        slots_wf(old(slots)@),
        cursor + n <= usize::MAX,
    ensures
        slots_wf(final(slots)@),
        same_shape(old(slots)@, final(slots)@),
        forall|j: int|
            #[trigger] live(old(slots)@, j) ==> ran(
                slot(old(slots)@, j),
                slot(final(slots)@, j),
                n as int,
                cursor as int,
                silence,
                first_input_block(final(slots)@, j),
                input_blocks(final(slots)@, j),
            ),
        !grows(old(slots)@, cursor + n - 1) ==> added@.len() == 0,
{
    let ghost s0 = slots@;
    let mut added: Vec<(usize, Node<S, P>)> = Vec::new();
    let mut k: usize = slots.len();
    while k > 0
        invariant
            slots_wf(slots@),
            slots_wf(s0),
            cursor + n <= usize::MAX,
            k <= slots@.len(),
            same_shape(s0, slots@),
            forall|j: int| 0 <= j < k ==> slots@[j] == s0[j],
            forall|j: int|
                k <= j < s0.len() && #[trigger] live(s0, j) ==> ran(
                    slot(s0, j),
                    slot(slots@, j),
                    n as int,
                    cursor as int,
                    silence,
                    first_input_block(slots@, j),
                    input_blocks(slots@, j),
                ),
            added@.len() > 0 ==> grows(s0, cursor + n - 1),
        decreases k,
    {
        k = k - 1;
        let is_live = match &slots[k] {
            Some(_) => true,
            None => false,
        };
        if is_live {
            let ghost pre = slots@;
            proof {
                assert forall|j: int| k < j < pre.len() && #[trigger] live(pre, j) implies slot(pre, j).block@.len() == n by {
                    assert(live(s0, j));
                }
            }
            run_slot(slots, k, n, cursor, silence, &mut added);
            proof {
                let post = slots@;
                assert(same_shape(pre, post)) by {
                    assert forall|j: int| #[trigger] live(pre, j) == live(post, j) by {
                        if j != k && 0 <= j < pre.len() {
                            assert(post[j] == pre[j]);
                        }
                    }
                    assert forall|j: int| live(pre, j) implies #[trigger] parent_of(pre, j) == parent_of(post, j) by {
                        if j != k {
                            assert(post[j] == pre[j]);
                        }
                    }
                }
                assert forall|j: int| #[trigger] live(s0, j) == live(post, j) by {
                    assert(live(s0, j) == live(pre, j));
                }
                assert forall|j: int| live(s0, j) implies #[trigger] parent_of(s0, j) == parent_of(post, j) by {
                    assert(live(pre, j));
                }
                assert forall|j: int| k <= j < s0.len() && #[trigger] live(s0, j) implies ran(
                    slot(s0, j),
                    slot(post, j),
                    n as int,
                    cursor as int,
                    silence,
                    first_input_block(post, j),
                    input_blocks(post, j),
                ) by {
                    lemma_same_inputs(pre, post, j, pre.len() as int);
                    lemma_inputs_below(pre, j, pre.len() as int);
                    if inputs_of(pre, j).len() > 0 {
                        let c = inputs_of(pre, j)[0];
                        assert(j < c);
                        assert(post[c] == pre[c]);
                    }
                    assert forall|x: int| 0 <= x < inputs_of(pre, j).len() implies #[trigger] post[inputs_of(pre, j)[x]] == pre[inputs_of(pre, j)[x]] by {
                        assert(j < inputs_of(pre, j)[x]);
                    }
                    assert(input_blocks(post, j) =~= input_blocks(pre, j));
                    if j == k {
                        assert(slot(s0, j) == slot(pre, j));
                    } else {
                        assert(post[j] == pre[j]);
                    }
                }
                if added@.len() > 0 && !grows(s0, cursor + n - 1) {
                    assert(live(s0, k as int));
                    assert(slot(pre, k as int) == slot(s0, k as int));
                }
            }
        }
    }
    added
}

/// Of a sorted queue, once every event due at or before `limit` has fired,
/// what stays is exactly the events due after `limit`, in their order: an
/// event fires in the first pass that reaches its index, and not before.
pub proof fn lemma_pending_are_later<S, P: Process<S>>(events: Seq<Event<S, P>>, limit: int)
    requires
        events_sorted(events),
    ensures
        pending_at(events, limit) == events.filter(|e: Event<S, P>| e.idx() > limit),
    decreases events.len(),
{
    let f = |e: Event<S, P>| e.idx() > limit;
    if events.len() > 0 {
        let front = events.drop_last();
        assert(events =~= front.push(events.last()));
        front.lemma_filter_push(events.last(), f);
        if events.last().idx() <= limit {
            lemma_pending_are_later(front, limit);
        } else {
            lemma_filter_all(events, limit);
        }
    } else {
        assert(events.filter(f) =~= events);
    }
}

proof fn lemma_filter_all<S, P: Process<S>>(events: Seq<Event<S, P>>, limit: int)
    requires
        events_sorted(events),
        events.len() > 0,
        events.last().idx() > limit,
    ensures
        events.filter(|e: Event<S, P>| e.idx() > limit) == events,
    decreases events.len(),
{
    let f = |e: Event<S, P>| e.idx() > limit;
    let front = events.drop_last();
    assert(events =~= front.push(events.last()));
    front.lemma_filter_push(events.last(), f);
    if front.len() > 0 {
        assert(front.last().idx() >= events.last().idx());
        lemma_filter_all(front, limit);
    } else {
        assert(front.filter(f) =~= front);
    }
}

/// An on or off event has taken effect at its own index: the state of the sample at
/// that index is the one the event sets, while at an earlier index it has not
/// fired yet.
pub proof fn lemma_switch_event_applies<S, P: Process<S>>(on: bool, e: Event<S, P>, limit: int)
    ensures
        e.idx() <= limit ==> on_at(on, seq![e], limit) == switched(on, e),
        e.idx() > limit ==> on_at(on, seq![e], limit) == on,
        e is NoteOff && e.idx() <= limit ==> !on_at(on, seq![e], limit),
        e is NoteOn && e.idx() <= limit ==> on_at(on, seq![e], limit),
{
    let q = seq![e];
    assert(q.drop_last() =~= Seq::<Event<S, P>>::empty());
    assert(q.last() == e);
    assert(on_at(switched(on, e), q.drop_last(), limit) == switched(on, e));
}

/// An update takes effect at its own index: the processor that computes the
/// sample at that index is the one the update gives, while at an earlier
/// index it has not been applied yet.
pub proof fn lemma_update_applies<S, P: Process<S>>(p: P, e: Event<S, P>, limit: int)
    ensures
        e.idx() <= limit ==> updated_at(p, seq![e], limit) == touched(p, e),
        e.idx() > limit ==> updated_at(p, seq![e], limit) == p,
        e is UpdateParams && e.idx() <= limit ==> updated_at(p, seq![e], limit) == p.spec_apply(
            e->update,
        ),
{
    let q = seq![e];
    assert(q.drop_last() =~= Seq::<Event<S, P>>::empty());
    assert(q.last() == e);
    assert(updated_at(touched(p, e), q.drop_last(), limit) == touched(p, e));
}

/// A node whose processor follows its spec functions and always yields the
/// zero sample, in a graph whose silence is that zero, produces only zeros.
pub proof fn lemma_silent_processor<S: Sample, P: Process<S>>(
    before: Slot<S, P>,
    after: Slot<S, P>,
    n: int,
    cursor: int,
    first: Option<Seq<S>>,
    ins: Seq<Seq<S>>,
)
    requires
        ran(before, after, n, cursor, S::spec_zero(), first, ins),
        P::modeled(),
        before.stage is Unit,
        forall|q: P, xs: Seq<S>| #[trigger] q.spec_next(xs).1 == S::spec_zero(),
    ensures
        forall|t: int| 0 <= t < n ==> #[trigger] after.block@[t] == S::spec_zero(),
{
    assert forall|t: int| 0 <= t < n implies #[trigger] after.block@[t] == S::spec_zero() by {
        if on_at(before.on, before.events@, cursor + t) {
            let q = state_before(before.stage->Unit_0, before.events@, before.on, cursor, ins, t as nat);
            assert(q.spec_next(column(ins, t)).1 == S::spec_zero());
        }
    }
}

} // verus!
