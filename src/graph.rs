use vstd::prelude::*;

use crate::event::Event;
use crate::node::{
    under, events_sorted, clear_marked, covered, find_slot, graft, live, mark_subtrees, name_of, named, names_of,
    queue_event, slot, slot_for, slots_wf, without, Node, Slot, Stage,
};
use crate::pass::{
    input_blocks, first_input_block, on_at, grows, inputs_of, lemma_same_inputs, pending_at, ran, run_pass,
};
use crate::process::{Process, Sample, Sentinel};
use crate::sampling::SamplingRate;

verus! {

/// The name of the root node.
pub const ROOT_NAME: &'static str = "root";

/// A tree of nodes under a root whose processor is a `Sentinel`: the root
/// passes the samples of the node it watches through.
pub struct Watcher<S, P: Process<S>> {
    pub(crate) root: Node<S, P>,
}

impl<S, P: Process<S>> Watcher<S, P> {
    #[verifier::type_invariant]
    pub(crate) open spec fn inv(&self) -> bool {
        &&& slot(self.root.slots@, 0).stage is Root
        &&& name_of(self.root.slots@, 0) == ROOT_NAME@
    }

    /// The names of the root and of every node below it.
    pub closed spec fn names(&self) -> Set<Seq<char>> {
        names_of(self.root.slots@)
    }

    /// The root is on and has no pending event.
    pub closed spec fn quiet(&self) -> bool {
        let r = slot(self.root.slots@, 0);
        r.on && r.events@.len() == 0
    }

    /// The names of the inputs of the root.
    pub closed spec fn input_names(&self) -> Set<Seq<char>> {
        let s = self.root.slots@;
        Set::new(
            |n: Seq<char>|
                exists|j: int|
                    0 < j && live(s, j) && name_of(s, j) == n && crate::node::parent_of(s, j) == 0,
        )
    }

    /// A root with no input: a graph over it is silent.
    pub fn empty() -> (w: Self)
        ensures
            w.names() == set![ROOT_NAME@],
            w.quiet(),
            w.input_names() == Set::<Seq<char>>::empty(),
    {
        Self::bare()
    }

    /// A root with no input.
    pub(crate) fn bare() -> (w: Self)
        ensures
            w.names() == set![ROOT_NAME@],
            w.root.slots@.len() == 1,
            w.quiet(),
            w.input_names() == Set::<Seq<char>>::empty(),
    {
        let mut slots: Vec<Option<Slot<S, P>>> = Vec::new();
        slots.push(
            Some(
                Slot {
                    name: ROOT_NAME.to_string(),
                    stage: Stage::Root(Sentinel),
                    on: true,
                    parent: 0,
                    events: Vec::new(),
                    block: Vec::new(),
                },
            ),
        );
        let root = Node { slots };
        let w = Watcher { root };
        assert(w.names() =~= set![ROOT_NAME@]);
        assert(w.input_names() =~= Set::<Seq<char>>::empty());
        w
    }

    /// A root that watches `node`. If `node` holds the root's name, the root
    /// is left without an input.
    pub fn on(node: Node<S, P>) -> (w: Self)
        ensures
            !node.names().contains(ROOT_NAME@) ==> w.names() == set![ROOT_NAME@] + node.names(),
            node.names().contains(ROOT_NAME@) ==> w.names() == set![ROOT_NAME@],
            !node.names().contains(ROOT_NAME@) ==> w.input_names() == set![node.name()],
            node.names().contains(ROOT_NAME@) ==> w.input_names() == Set::<Seq<char>>::empty(),
            w.quiet(),
    {
        let bare = Self::bare();
        proof {
            use_type_invariant(&bare);
        }
        let Watcher { root } = bare;
        proof {
            use_type_invariant(&root);
        }
        let mut slots = root.slots;
        let ghost s0 = slots@;
        proof {
            assert(live(s0, 0));
            assert(names_of(s0).contains(name_of(s0, 0)));
            assert(name_of(s0, 0) == ROOT_NAME@);
            let seeds = named(s0, node.names());
            if covered(s0, seeds, 0) {
                let k = choose|k: int| 0 <= k < seeds.len() && seeds[k] && #[trigger] crate::node::under(s0, 0, k);
                assert(k == 0);
            }
            if seeds[0] {
                assert(crate::node::under(s0, 0, 0));
            }
            assert(names_of(s0) =~= set![ROOT_NAME@]);
            if !node.names().contains(ROOT_NAME@) {
                assert(names_of(without(s0, seeds)) =~= names_of(s0)) by {
                    assert forall|j: int| 0 <= j < s0.len() implies without(s0, seeds)[j] == s0[j] by {
                        if covered(s0, seeds, j) {
                            let k = choose|k: int| 0 <= k < seeds.len() && seeds[k] && #[trigger] crate::node::under(s0, j, k);
                            assert(j == 0);
                            assert(k == 0);
                        }
                    }
                    assert(without(s0, seeds) =~= s0);
                }
            }
        }
        let ghost inc = node.slots@;
        proof {
            node.lemma_names();
            use_type_invariant(&node);
        }
        let ghost in_name = node.name();
        let added = graft(&mut slots, 0, node);
        let total = slots.len();
        let ghost s1 = slots@;
        assert(s1.len() == total);
        proof {
            if added {
                assert(s1[0] == s0[0]);
                let cl = without(s0, named(s0, names_of(inc)));
                assert(cl.len() == 1);
            } else {
                assert(s1 == s0);
            }
        }
        let root = Node { slots };
        let w = Watcher { root };
        proof {
            if added {
                let cl = without(s0, named(s0, names_of(inc)));
                assert(w.root.slots@ == s1);
                assert(s1 == crate::node::grafted(cl, inc, 0));
                assert(cl.len() == 1);
                assert(name_of(inc, 0) == in_name);
                assert forall|n: Seq<char>| #[trigger] w.input_names().contains(n) == (n == in_name) by {
                    assert(s1[1] == crate::node::shifted(inc[0], 0, 0, 1));
                    assert(live(inc, 0));
                    if n == in_name {
                        assert(live(s1, 1) && name_of(s1, 1) == n && crate::node::parent_of(s1, 1) == 0);
                    }
                    if w.input_names().contains(n) {
                        let j = choose|j: int| 0 < j && live(s1, j) && name_of(s1, j) == n && crate::node::parent_of(s1, j) == 0;
                        assert(s1[j] == crate::node::shifted(inc[j - 1], j - 1, 0, 1));
                        if j > 1 {
                            assert(live(inc, j - 1));
                            assert(crate::node::parent_of(inc, j - 1) < j - 1);
                            assert(crate::node::parent_of(s1, j) == crate::node::parent_of(inc, j - 1) + 1);
                        } else {
                            assert(name_of(s1, 1) == name_of(inc, 0));
                        }
                    }
                }
                assert(w.input_names() =~= set![in_name]);
            } else {
                assert(w.input_names() =~= Set::<Seq<char>>::empty()) by {
                    assert(s1.len() == 1);
                }
            }
        }
        w
    }
}

/// A graph of nodes under a watcher, bound to a sampling rate. It keeps the
/// absolute index of the next sample it will produce; events are due at
/// absolute indices.
pub struct Audiograph<S, P: Process<S>> {
    root: Watcher<S, P>,
    sample_rate: SamplingRate,
    cursor: usize,
    silence: S,
}

impl<S, P: Process<S>> Audiograph<S, P> {
    pub closed spec fn rate(&self) -> SamplingRate {
        self.sample_rate
    }

    /// The absolute index of the next sample the graph produces.
    pub closed spec fn cursor(&self) -> int {
        self.cursor as int
    }

    /// The sample the graph writes for silence.
    pub closed spec fn silence(&self) -> S {
        self.silence
    }

    /// The names of the nodes of the graph, the root's included.
    pub closed spec fn names(&self) -> Set<Seq<char>> {
        self.root.names()
    }

    /// The names of the inputs of the root.
    pub closed spec fn root_input_names(&self) -> Set<Seq<char>> {
        self.root.input_names()
    }

    /// All that the graph holds: its nodes, its rate, its cursor and its
    /// silence.
    pub closed spec fn contents(&self) -> (Seq<Option<Slot<S, P>>>, SamplingRate, usize, S) {
        (self.root.root.slots@, self.sample_rate, self.cursor, self.silence)
    }

    /// The state of the node called `name`.
    pub closed spec fn node_state(&self, name: Seq<char>) -> Slot<S, P> {
        slot(self.root.root.slots@, self.index_of(name))
    }

    /// How the node called `name` computes its samples.
    pub closed spec fn stage_of(&self, name: Seq<char>) -> Stage<P> {
        slot(self.root.root.slots@, self.index_of(name)).stage
    }

    /// The node called `child` is an input of the node called `parent`.
    pub closed spec fn feeds(&self, child: Seq<char>, parent: Seq<char>) -> bool {
        let s = self.root.root.slots@;
        exists|j: int|
            0 < j && live(s, j) && name_of(s, j) == child && name_of(s, crate::node::parent_of(s, j))
                == parent
    }

    /// The node called `name` has run, from the state it had in `before`, the
    /// pass of `n` samples that `before` was about to make: its on state and
    /// queue follow the events due in the pass; its block is silence where it
    /// is off; the root's block is its first input's; a processor that
    /// follows its spec functions computed the rest from the blocks of the
    /// node's inputs, with each update applied at its index.
    pub closed spec fn ran_from(&self, before: Audiograph<S, P>, name: Seq<char>, n: int) -> bool {
        let s0 = before.root.root.slots@;
        let s1 = self.root.root.slots@;
        let j = before.index_of(name);
        let idx = inputs_of(s0, j);
        ran(
            slot(s0, j),
            slot(s1, j),
            n,
            before.cursor as int,
            before.silence,
            if idx.len() > 0 {
                Some(slot(s1, idx[0]).block@)
            } else {
                None
            },
            Seq::new(idx.len(), |x: int| slot(s1, idx[x]).block@),
        )
    }

    /// The node called `name` in `before`, and each of its inputs there, are
    /// still in this graph: inputs added by events may have replaced others.
    pub closed spec fn survives(&self, before: Audiograph<S, P>, name: Seq<char>) -> bool {
        let s0 = before.root.root.slots@;
        let s1 = self.root.root.slots@;
        let j = before.index_of(name);
        &&& live(s1, j)
        &&& forall|x: int| 0 <= x < inputs_of(s0, j).len() ==> live(s1, #[trigger] inputs_of(s0, j)[x])
    }

    /// The tree is well formed, with the root at its top.
    pub closed spec fn valid(&self) -> bool {
        let s = self.root.root.slots@;
        &&& slots_wf(s)
        &&& slot(s, 0).stage is Root
        &&& name_of(s, 0) == ROOT_NAME@
    }

    /// The slot of the node called `name`.
    closed spec fn index_of(&self, name: Seq<char>) -> int {
        let s = self.root.root.slots@;
        choose|j: int| live(s, j) && name_of(s, j) == name
    }

    /// Whether the node called `name` is on once its events due at or before
    /// `limit` fired.
    pub closed spec fn on_of(&self, name: Seq<char>, limit: int) -> bool {
        let r = slot(self.root.root.slots@, self.index_of(name));
        on_at(r.on, r.events@, limit)
    }

    /// The latest block of the node called `name`.
    pub closed spec fn block_of(&self, name: Seq<char>) -> Seq<S> {
        slot(self.root.root.slots@, self.index_of(name)).block@
    }

    /// The node called `n` is the node called `m` or stands below it.
    pub closed spec fn below(&self, n: Seq<char>, m: Seq<char>) -> bool {
        under(self.root.root.slots@, self.index_of(n), self.index_of(m))
    }

    /// The names of the nodes that the root reaches by following inputs,
    /// the root's own included.
    pub closed spec fn reachable(&self) -> Set<Seq<char>> {
        let s = self.root.root.slots@;
        Set::new(|n: Seq<char>| exists|j: int| under(s, j, 0) && name_of(s, j) == n)
    }

    /// Whether the root is on once its events due at or before `limit` fired.
    pub closed spec fn root_on(&self, limit: int) -> bool {
        let r = slot(self.root.root.slots@, 0);
        on_at(r.on, r.events@, limit)
    }

    /// The root has an input.
    pub closed spec fn has_input(&self) -> bool {
        inputs_of(self.root.root.slots@, 0).len() > 0
    }

    /// The latest block of the root's first input.
    pub closed spec fn input_block(&self) -> Seq<S> {
        match first_input_block(self.root.root.slots@, 0) {
            Some(b) => b,
            None => Seq::empty(),
        }
    }

    /// Some node has an event that adds an input due at or before `limit`.
    pub closed spec fn grows_by(&self, limit: int) -> bool {
        grows(self.root.root.slots@, limit)
    }

    /// The pending events of the node called `name`.
    pub closed spec fn events_of(&self, name: Seq<char>) -> Seq<Event<S, P>> {
        let s = self.root.root.slots@;
        slot(s, choose|j: int| live(s, j) && name_of(s, j) == name).events@
    }

    /// The names of the nodes that do not stand at or below a node named in
    /// `names`.
    pub closed spec fn kept_names(&self, names: Set<Seq<char>>) -> Set<Seq<char>> {
        let s = self.root.root.slots@;
        names_of(without(s, named(s, names)))
    }

    /// The node called `name` stands at or below a node whose name `names`
    /// holds.
    pub closed spec fn replaces(&self, name: Seq<char>, names: Set<Seq<char>>) -> bool {
        let s = self.root.root.slots@;
        covered(s, named(s, names), choose|j: int| live(s, j) && name_of(s, j) == name)
    }

    /// The sampling rate of the graph.
    pub fn get_sampling_rate(&self) -> (r: SamplingRate)
        ensures
            r == self.rate(),
    {
        self.sample_rate
    }
}

impl<S: Sample, P: Process<S>> Audiograph<S, P> {
    /// A graph over `root`, at `sample_rate` samples per second, whose next
    /// sample has index 0.
    pub fn new(sample_rate: u32, root: Watcher<S, P>) -> (g: Self)
        ensures
            g.valid(),
            g.rate().0 == sample_rate,
            g.names() == root.names(),
            g.cursor() == 0,
            S::exact() ==> g.silence() == S::spec_zero(),
            g.root_input_names() == root.input_names(),
            root.quiet() ==> forall|l: int| #[trigger] g.root_on(l),
            g.has_input() <==> exists|n: Seq<char>| #[trigger] g.names().contains(n) && n != ROOT_NAME@,
    {
        proof {
            use_type_invariant(&root);
            use_type_invariant(&root.root);
        }
        let g = Audiograph { root, sample_rate: SamplingRate(sample_rate), cursor: 0, silence: S::zero() };
        proof {
            lemma_input_iff_nodes_below(g);
        }
        g
    }
}

/// If a live slot is kept, so is the root.
proof fn lemma_root_kept<S, P: Process<S>>(slots: crate::node::Slots<S, P>, seeds: Seq<bool>, target: int)
    requires
        slots_wf(slots),
        live(slots, target),
        !covered(slots, seeds, target),
    ensures
        !covered(slots, seeds, 0),
        without(slots, seeds)[0] == slots[0],
{
    crate::node::lemma_under_root(slots, target);
    if covered(slots, seeds, 0) {
        let k = choose|k: int| 0 <= k < seeds.len() && seeds[k] && #[trigger] crate::node::under(slots, 0, k);
        crate::node::lemma_under_live(slots, 0, k);
        assert(crate::node::under(slots, target, 0));
    }
}

/// In slots with unique names, the slot that `choose` picks for a name is the
/// one that bears it.
proof fn lemma_pick<S, P: Process<S>>(slots: crate::node::Slots<S, P>, j: int)
    requires
        slots_wf(slots),
        live(slots, j),
    ensures
        (choose|i: int| live(slots, i) && name_of(slots, i) == name_of(slots, j)) == j,
{
    let i = choose|i: int| live(slots, i) && name_of(slots, i) == name_of(slots, j);
    assert(live(slots, i) && name_of(slots, i) == name_of(slots, j));
}

impl<S: Sample, P: Process<S>> Audiograph<S, P> {
    /// Moves the slots of the tree out, leaving a bare root in their place.
    fn take_slots(&mut self) -> (r: Vec<Option<Slot<S, P>>>)
        ensures
            r@ == old(self).root.root.slots@,
            slots_wf(r@),
            slot(r@, 0).stage is Root,
            name_of(r@, 0) == ROOT_NAME@,
            final(self).sample_rate == old(self).sample_rate,
            final(self).cursor == old(self).cursor,
            final(self).silence == old(self).silence,
    {
        let mut w = Watcher::bare();
        std::mem::swap(&mut self.root, &mut w);
        proof {
            use_type_invariant(&w);
        }
        let Watcher { root } = w;
        proof {
            use_type_invariant(&root);
        }
        root.slots
    }

    /// Puts `slots` back as the tree of the graph.
    fn put_slots(&mut self, slots: Vec<Option<Slot<S, P>>>)
        requires
            slots_wf(slots@),
            slot(slots@, 0).stage is Root,
            name_of(slots@, 0) == ROOT_NAME@,
        ensures
            final(self).root.root.slots@ == slots@,
            final(self).sample_rate == old(self).sample_rate,
            final(self).cursor == old(self).cursor,
            final(self).silence == old(self).silence,
    {
        self.root = Watcher { root: Node { slots } };
    }

    /// Adds `input`, with its own inputs, as an input of the node called
    /// `name`. A node that bears a name that `input` holds is replaced: it
    /// leaves, with its own inputs, before `input` is added. Fails, changing
    /// nothing, if no node is called `name` or if that node would itself be
    /// replaced.
    pub fn add_input_to(&mut self, name: &str, input: Node<S, P>) -> (r: bool)
        ensures
            final(self).valid(),
            r == (old(self).names().contains(name@) && !old(self).replaces(name@, input.names())),
            r ==> final(self).names() == old(self).kept_names(input.names()) + input.names(),
            !r ==> final(self).names() == old(self).names(),
            !r ==> final(self).contents() == old(self).contents(),
            old(self).names().contains(name@) && old(self).names().disjoint(input.names()) ==> r,
            r && old(self).names().disjoint(input.names()) ==> final(self).names() == old(
                self,
            ).names() + input.names(),
            r ==> final(self).feeds(input.name(), name@),
            final(self).cursor() == old(self).cursor(),
            final(self).silence() == old(self).silence(),
            final(self).rate() == old(self).rate(),
    {
        let key = name.to_string();
        let mut slots = self.take_slots();
        let ghost s0 = slots@;
        let found = find_slot(&slots, &key);
        let ok = match found {
            Some(k) => {
                proof {
                    lemma_pick(s0, k as int);
                    input.lemma_names();
                    use_type_invariant(&input);
                    if names_of(s0).disjoint(input.names()) {
                        crate::node::lemma_without_disjoint(s0, input.names());
                        assert(without(s0, named(s0, input.names()))[k as int] == s0[k as int]);
                    }
                }
                let ghost inc = input.slots@;
                let ghost in_name = input.name();
                let ghost in_names = input.names();
                let ok = graft(&mut slots, k, input);
                proof {
                    if ok {
                        lemma_root_kept(s0, named(s0, in_names), k as int);
                        let cl = without(s0, named(s0, in_names));
                        let base = cl.len() as int;
                        let s1 = slots@;
                        assert(s1[base] == crate::node::shifted(inc[0], 0, k as int, base));
                        assert(live(inc, 0));
                        assert(cl[k as int] == s0[k as int]);
                        assert(s1[k as int] == s0[k as int]);
                        assert(0 < base && live(s1, base) && name_of(s1, base) == in_name && name_of(
                            s1,
                            crate::node::parent_of(s1, base),
                        ) == name@);
                    }
                }
                ok
            },
            None => false,
        };
        self.put_slots(slots);
        ok
    }

    /// Puts `event` into the queue of the node called `name`, in due order.
    /// Fails, changing nothing, if no node is called `name`, or if the event
    /// is an update that the node's processor does not accept.
    pub fn register_event(&mut self, name: &str, event: Event<S, P>) -> (r: bool)
        ensures
            final(self).valid(),
            !old(self).names().contains(name@) ==> !r,
            old(self).names().contains(name@) && !(event is UpdateParams) ==> r,
            event is UpdateParams && old(self).names().contains(name@) ==> match old(self).stage_of(name@) {
                Stage::Root(_) => !r,
                Stage::Unit(p) => P::modeled() ==> r == p.spec_accepts(event->update),
            },
            !r ==> final(self).contents() == old(self).contents(),
            final(self).names() == old(self).names(),
            r ==> final(self).events_of(name@) == old(self).events_of(name@).insert(
                slot_for(old(self).events_of(name@), event.idx()),
                event,
            ),
            forall|other: Seq<char>|
                old(self).names().contains(other) && (other != name@ || !r)
                    ==> #[trigger] final(self).events_of(other) == old(self).events_of(other),
            final(self).cursor() == old(self).cursor(),
            final(self).silence() == old(self).silence(),
            final(self).rate() == old(self).rate(),
    {
        let key = name.to_string();
        let mut slots = self.take_slots();
        let ghost s0 = slots@;
        let found = find_slot(&slots, &key);
        let ok = match found {
            Some(k) => {
                proof {
                    lemma_pick(s0, k as int);
                }
                let accepted = match &event {
                    Event::UpdateParams { update, .. } => match &slots[k] {
                        Some(s) => match &s.stage {
                            Stage::Unit(p) => p.accepts(update),
                            Stage::Root(_) => false,
                        },
                        None => false,
                    },
                    _ => true,
                };
                if accepted {
                    queue_event(&mut slots, k, event);
                    proof {
                        let s1 = slots@;
                        lemma_pick(s0, k as int);
                        lemma_pick(s1, k as int);
                        assert forall|other: Seq<char>| other != name@ && names_of(s0).contains(other) implies slot(
                            s1,
                            choose|j: int| live(s1, j) && name_of(s1, j) == other,
                        ).events@ == slot(s0, choose|j: int| live(s0, j) && name_of(s0, j) == other).events@ by {
                            let j = choose|j: int| live(s0, j) && name_of(s0, j) == other;
                            lemma_pick(s0, j);
                            assert(j != k);
                            assert(s1[j] == s0[j]);
                            lemma_pick(s1, j);
                        }
                        if k == 0 {
                            assert(slot(s1, 0).stage == slot(s0, 0).stage);
                        } else {
                            assert(s1[0] == s0[0]);
                        }
                    }
                    true
                } else {
                    false
                }
            },
            None => false,
        };
        self.put_slots(slots);
        ok
    }

    /// Removes the node called `name` from its parent, with every node below
    /// it. The root cannot be removed. Fails, changing nothing, if no node
    /// other than the root is called `name`.
    pub fn delete_node(&mut self, name: &str) -> (r: bool)
        ensures
            final(self).valid(),
            r == (old(self).names().contains(name@) && name@ != ROOT_NAME@),
            r ==> final(self).names() == old(self).kept_names(set![name@]),
            !r ==> final(self).names() == old(self).names(),
            !r ==> final(self).contents() == old(self).contents(),
            r ==> forall|n: Seq<char>|
                #[trigger] final(self).names().contains(n) ==> final(self).node_state(n) == old(
                    self,
                ).node_state(n),
            final(self).cursor() == old(self).cursor(),
            final(self).silence() == old(self).silence(),
            final(self).rate() == old(self).rate(),
    {
        let key = name.to_string();
        let mut slots = self.take_slots();
        let ghost s0 = slots@;
        let found = find_slot(&slots, &key);
        let ok = match found {
            Some(k) => {
                if k == 0 {
                    false
                } else {
                    let mut seeds: Vec<bool> = Vec::new();
                    let mut j: usize = 0;
                    while j < slots.len()
                        invariant
                            slots@ == s0,
                            j <= slots@.len(),
                            seeds@.len() == j,
                            forall|i: int| 0 <= i < j ==> seeds@[i] == (i == k),
                        decreases slots@.len() - j,
                    {
                        seeds.push(j == k);
                        j = j + 1;
                    }
                    proof {
                        let want = named(s0, set![name@]);
                        assert forall|i: int| 0 <= i < s0.len() implies seeds@[i] == want[i] by {
                            if live(s0, i) && name_of(s0, i) == name@ {
                                assert(i == k);
                            }
                        }
                        assert(seeds@ =~= want);
                        if covered(s0, seeds@, 0) {
                            let c = choose|c: int| 0 <= c < seeds@.len() && seeds@[c] && #[trigger] crate::node::under(s0, 0, c);
                            crate::node::lemma_under_live(s0, 0, c);
                        }
                    }
                    let marks = mark_subtrees(&slots, &seeds);
                    clear_marked(&mut slots, &marks, Ghost(seeds@));
                    proof {
                        assert(slots@[0] == s0[0]);
                        let s1 = slots@;
                        assert forall|n: Seq<char>| #[trigger] names_of(s1).contains(n) implies slot(
                            s1,
                            choose|j: int| live(s1, j) && name_of(s1, j) == n,
                        ) == slot(s0, choose|j: int| live(s0, j) && name_of(s0, j) == n) by {
                            let j = choose|j: int| live(s1, j) && name_of(s1, j) == n;
                            lemma_pick(s1, j);
                            assert(s1[j] == s0[j]);
                            assert(live(s0, j));
                            lemma_pick(s0, j);
                        }
                    }
                    true
                }
            },
            None => false,
        };
        self.put_slots(slots);
        ok
    }

    /// Puts the tree of `root` in place of the graph's tree.
    pub fn set_root(&mut self, root: Watcher<S, P>)
        ensures
            final(self).valid(),
            final(self).names() == root.names(),
            final(self).cursor() == old(self).cursor(),
            final(self).silence() == old(self).silence(),
            final(self).rate() == old(self).rate(),
    {
        proof {
            use_type_invariant(&root);
            use_type_invariant(&root.root);
        }
        self.root = root;
    }

    /// The names of the nodes of the graph, the root's included.
    pub fn node_names(&self) -> (r: Vec<String>)
        ensures
            forall|name: Seq<char>|
                self.names().contains(name) <==> exists|i: int| 0 <= i < r@.len() && #[trigger] r@[i]@ == name,
    {
        let slots = &self.root.root.slots;
        let mut r: Vec<String> = Vec::new();
        let ghost mut src: Seq<int> = Seq::empty();
        let ghost mut pos: Seq<int> = Seq::empty();
        let mut j: usize = 0;
        while j < slots.len()
            invariant
                slots@ == self.root.root.slots@,
                j <= slots@.len(),
                src.len() == r@.len(),
                forall|x: int|
                    0 <= x < r@.len() ==> 0 <= #[trigger] src[x] < j && live(slots@, src[x]) && r@[x]@
                        == name_of(slots@, src[x]),
                pos.len() == j,
                forall|i: int|
                    0 <= i < j && live(slots@, i) ==> 0 <= #[trigger] pos[i] < r@.len() && r@[pos[i]]@
                        == name_of(slots@, i),
            decreases slots@.len() - j,
        {
            match &slots[j] {
                Some(s) => {
                    proof {
                        src = src.push(j as int);
                        pos = pos.push(r@.len() as int);
                    }
                    r.push(s.name.clone());
                },
                None => {
                    proof {
                        pos = pos.push(0);
                    }
                },
            }
            j = j + 1;
        }
        proof {
            assert forall|name: Seq<char>|
                self.names().contains(name) <==> exists|i: int| 0 <= i < r@.len() && #[trigger] r@[i]@ == name by {
                if self.names().contains(name) {
                    let i = choose|i: int| live(slots@, i) && name_of(slots@, i) == name;
                    assert(r@[pos[i]]@ == name);
                }
                if exists|x: int| 0 <= x < r@.len() && #[trigger] r@[x]@ == name {
                    let x = choose|x: int| 0 <= x < r@.len() && #[trigger] r@[x]@ == name;
                    assert(live(slots@, src[x]) && name_of(slots@, src[x]) == name);
                }
            }
        }
        r
    }

    /// The next sample of the graph: a pass of a single sample.
    pub fn next_sample(&mut self) -> (r: S)
        requires
            old(self).cursor() < usize::MAX,
        ensures
            final(self).valid(),
            final(self).cursor() == old(self).cursor() + 1,
            !old(self).root_on(old(self).cursor()) ==> r == old(self).silence(),
            !old(self).has_input() ==> r == old(self).silence(),
            !old(self).grows_by(old(self).cursor()) && old(self).root_on(old(self).cursor())
                && old(self).has_input() ==> r == final(self).input_block()[0],
            r == final(self).block_of(ROOT_NAME@)[0],
            forall|name: Seq<char>|
                old(self).names().contains(name) && final(self).survives(*old(self), name)
                    ==> #[trigger] final(self).ran_from(*old(self), name, 1),
            !old(self).grows_by(old(self).cursor()) ==> forall|name: Seq<char>|
                old(self).names().contains(name) ==> #[trigger] final(self).survives(*old(self), name),
    {
        let mut buf: Vec<S> = Vec::new();
        buf.push(self.silence);
        self.stream_into(&mut buf, false);
        buf[0]
    }

    /// Writes the next `buf.len()` samples of the graph into `buf`: every node
    /// runs once, inputs before the nodes they feed, each event firing just
    /// before the first sample at or after its index. Inputs added by events
    /// join the graph at the end of the pass and are heard from the next one;
    /// what the pass did is stated of every node that is still there, with
    /// its inputs, once they joined.
    /// Evaluation is sequential whatever `parallel` asks: the result does not
    /// depend on it.
    pub fn stream_into(&mut self, buf: &mut Vec<S>, parallel: bool)
        requires
            old(self).cursor() + old(buf)@.len() <= usize::MAX,
        ensures
            final(self).valid(),
            final(buf)@.len() == old(buf)@.len(),
            final(self).cursor() == old(self).cursor() + old(buf)@.len(),
            final(self).silence() == old(self).silence(),
            final(self).rate() == old(self).rate(),
            forall|t: int|
                0 <= t < final(buf)@.len() && !old(self).root_on(old(self).cursor() + t)
                    ==> #[trigger] final(buf)@[t] == old(self).silence(),
            forall|t: int|
                0 <= t < final(buf)@.len() && !old(self).has_input() ==> #[trigger] final(buf)@[t]
                    == old(self).silence(),
            final(buf)@ == final(self).block_of(ROOT_NAME@),
            forall|name: Seq<char>|
                old(self).names().contains(name) && final(self).survives(*old(self), name)
                    ==> #[trigger] final(self).ran_from(*old(self), name, old(buf)@.len() as int),
            !old(self).grows_by(old(self).cursor() + old(buf)@.len() - 1) ==> {
                &&& final(self).names() == old(self).names()
                &&& forall|name: Seq<char>|
                    old(self).names().contains(name) ==> #[trigger] final(self).survives(
                        *old(self),
                        name,
                    )
                &&& final(self).has_input() == old(self).has_input()
                &&& forall|t: int|
                    0 <= t < final(buf)@.len() && old(self).root_on(old(self).cursor() + t)
                        && old(self).has_input() ==> #[trigger] final(buf)@[t]
                        == final(self).input_block()[t]
                &&& forall|name: Seq<char>, t: int|
                    old(self).names().contains(name) && 0 <= t < old(buf)@.len() && !old(
                        self,
                    ).on_of(name, old(self).cursor() + t) ==> #[trigger] final(self).block_of(
                        name,
                    )[t] == old(self).silence()
                &&& old(buf)@.len() > 0 ==> forall|name: Seq<char>|
                    #[trigger] old(self).names().contains(name) ==> final(self).events_of(name)
                        == pending_at(
                        old(self).events_of(name),
                        old(self).cursor() + old(buf)@.len() - 1,
                    )
            },
    {
        let n = buf.len();
        let cursor = self.cursor;
        let silence = self.silence;
        let mut slots = self.take_slots();
        let ghost s0 = slots@;
        let mut added = run_pass(&mut slots, n, cursor, silence);
        let ghost s1 = slots@;
        proof {
            assert(live(s0, 0));
            lemma_same_inputs(s0, s1, 0, s0.len() as int);
        }
        let mut t: usize = 0;
        while t < n
            invariant
                slots@ == s1,
                live(s1, 0),
                slot(s1, 0).block@.len() == n,
                buf@.len() == n,
                t <= n,
                forall|u: int| 0 <= u < t ==> #[trigger] buf@[u] == slot(s1, 0).block@[u],
            decreases n - t,
        {
            let v = match &slots[0] {
                Some(r) => r.block[t],
                None => vstd::pervasive::unreached(),
            };
            buf.set(t, v);
            t = t + 1;
        }
        let ghost none_added = added@.len() == 0;
        while added.len() > 0
            invariant
                none_added ==> slots@ == s1 && added@.len() == 0,
                slots_wf(slots@),
                slots@.len() >= s1.len(),
                slots@[0] == s1[0],
                forall|j: int| 0 <= j < s1.len() ==> #[trigger] slots@[j] is None || slots@[j] == s1[j],
            decreases added@.len(),
        {
            let (target, node) = added.remove(0);
            let ghost before = slots@;
            let ok = graft(&mut slots, target, node);
            proof {
                if ok {
                    lemma_root_kept(before, named(before, node.names()), target as int);
                    let w = without(before, named(before, node.names()));
                    assert forall|j: int| 0 <= j < s1.len() implies #[trigger] slots@[j] is None
                        || slots@[j] == s1[j] by {
                        assert(slots@[j] == w[j]);
                    }
                }
            }
        }
        self.put_slots(slots);
        self.cursor = cursor + n;
        proof {
            let s2 = slots@;
            assert(live(s2, 0));
            lemma_pick(s2, 0);
            assert(buf@ =~= self.block_of(ROOT_NAME@));
            assert forall|name: Seq<char>|
                old(self).names().contains(name) && self.survives(*old(self), name) implies #[trigger] self.ran_from(
                *old(self),
                name,
                n as int,
            ) by {
                let j = choose|j: int| live(s0, j) && name_of(s0, j) == name;
                assert(live(s0, j));
                lemma_same_inputs(s0, s1, j, s0.len() as int);
                crate::pass::lemma_inputs_below(s0, j, s0.len() as int);
                let idx = inputs_of(s0, j);
                assert(s2[j] == s1[j]);
                assert forall|x: int| 0 <= x < idx.len() implies #[trigger] s2[idx[x]] == s1[idx[x]] by {
                    assert(live(s2, idx[x]));
                }
                assert(Seq::new(idx.len(), |x: int| slot(s2, idx[x]).block@) =~= input_blocks(s1, j));
            }
            if !grows(s0, cursor + n - 1) {
                assert forall|name: Seq<char>| old(self).names().contains(name) implies #[trigger] self.survives(
                    *old(self),
                    name,
                ) by {
                    let j = choose|j: int| live(s0, j) && name_of(s0, j) == name;
                    assert(live(s0, j));
                    crate::pass::lemma_inputs_below(s0, j, s0.len() as int);
                }
            }
            if !grows(s0, cursor + n - 1) {
                assert(s2 == s1);
                assert(names_of(s1) =~= names_of(s0)) by {
                    assert forall|nm: Seq<char>| names_of(s1).contains(nm) == names_of(s0).contains(nm) by {
                        if names_of(s1).contains(nm) {
                            let j = choose|j: int| live(s1, j) && name_of(s1, j) == nm;
                            assert(live(s0, j));
                        }
                        if names_of(s0).contains(nm) {
                            let j = choose|j: int| live(s0, j) && name_of(s0, j) == nm;
                            assert(live(s1, j));
                        }
                    }
                }
                assert forall|name: Seq<char>, t: int|
                    old(self).names().contains(name) && 0 <= t < n && !old(self).on_of(name, cursor + t)
                        implies #[trigger] self.block_of(name)[t] == silence by {
                    let j = choose|j: int| live(s0, j) && name_of(s0, j) == name;
                    lemma_pick(s0, j);
                    assert(live(s1, j));
                    lemma_pick(s1, j);
                }
                if n > 0 {
                    assert forall|name: Seq<char>| #[trigger] names_of(s0).contains(name) implies slot(
                        s1,
                        choose|j: int| live(s1, j) && name_of(s1, j) == name,
                    ).events@ == pending_at(
                        slot(s0, choose|j: int| live(s0, j) && name_of(s0, j) == name).events@,
                        cursor + n - 1,
                    ) by {
                        let j = choose|j: int| live(s0, j) && name_of(s0, j) == name;
                        lemma_pick(s0, j);
                        assert(live(s1, j));
                        lemma_pick(s1, j);
                    }
                }
            }
        }
    }
}

/// Every name that the graph holds is the name of a node that the root
/// reaches by following inputs, and every node so reached is held.
pub proof fn lemma_names_are_reachable<S, P: Process<S>>(g: Audiograph<S, P>)
    requires
        g.valid(),
    ensures
        g.names() == g.reachable(),
{
    let s = g.root.root.slots@;
    assert forall|n: Seq<char>| g.names().contains(n) == g.reachable().contains(n) by {
        if g.names().contains(n) {
            let j = choose|j: int| live(s, j) && name_of(s, j) == n;
            crate::node::lemma_under_root(s, j);
        }
        if g.reachable().contains(n) {
            let j = choose|j: int| under(s, j, 0) && name_of(s, j) == n;
            crate::node::lemma_under_live(s, j, 0);
        }
    }
    assert(g.names() =~= g.reachable());
}

/// Taking out the node called `name` with all below it leaves neither it nor
/// any node below it; what is left is every other node.
pub proof fn lemma_removal_clears_subtree<S, P: Process<S>>(g: Audiograph<S, P>, name: Seq<char>)
    requires
        g.valid(),
        g.names().contains(name),
    ensures
        !g.kept_names(set![name]).contains(name),
        forall|n: Seq<char>|
            #[trigger] g.kept_names(set![name]).contains(n) <==> g.names().contains(n) && !g.below(n, name),
{
    let s = g.root.root.slots@;
    let seeds = named(s, set![name]);
    let w = without(s, seeds);
    crate::node::lemma_without_named(s, set![name]);
    let k = choose|j: int| live(s, j) && name_of(s, j) == name;
    lemma_pick(s, k);
    assert forall|n: Seq<char>|
        #[trigger] g.kept_names(set![name]).contains(n) <==> g.names().contains(n) && !g.below(n, name) by {
        if g.names().contains(n) {
            let j = choose|j: int| live(s, j) && name_of(s, j) == n;
            lemma_pick(s, j);
            if covered(s, seeds, j) {
                let c = choose|c: int| 0 <= c < seeds.len() && seeds[c] && #[trigger] under(s, j, c);
                assert(name_of(s, c) == name);
                assert(c == k);
            }
            if under(s, j, k) {
                assert(seeds[k]);
            }
            if !under(s, j, k) {
                assert(w[j] == s[j]);
                assert(live(w, j) && name_of(w, j) == n);
            }
        }
        if g.kept_names(set![name]).contains(n) {
            let j = choose|j: int| live(w, j) && name_of(w, j) == n;
            assert(w[j] == s[j]);
            assert(live(s, j));
            lemma_pick(s, j);
            if under(s, j, k) {
                assert(seeds[k]);
                assert(covered(s, seeds, j));
            }
        }
    }
}

/// The queue of every node stands by decreasing sample index, so that the
/// last event is the next one due.
pub proof fn lemma_queues_sorted<S, P: Process<S>>(g: Audiograph<S, P>, name: Seq<char>)
    requires
        g.valid(),
        g.names().contains(name),
    ensures
        events_sorted(g.events_of(name)),
{
    let s = g.root.root.slots@;
    let j = choose|j: int| live(s, j) && name_of(s, j) == name;
    assert(live(s, j));
}

proof fn lemma_input_below<S, P: Process<S>>(s: crate::node::Slots<S, P>, i: int, j: int, upto: int)
    requires
        live(s, j),
        j != i,
        crate::node::parent_of(s, j) == i,
        j < upto,
    ensures
        crate::pass::inputs_below(s, i, upto).len() > 0,
    decreases upto,
{
    if j < upto - 1 {
        lemma_input_below(s, i, j, upto - 1);
    }
}

proof fn lemma_root_input_above<S, P: Process<S>>(s: crate::node::Slots<S, P>, j: int)
    requires
        slots_wf(s),
        live(s, j),
        j > 0,
    ensures
        inputs_of(s, 0).len() > 0,
    decreases j,
{
    let p = crate::node::parent_of(s, j);
    if p == 0 {
        lemma_input_below(s, 0, j, s.len() as int);
    } else {
        lemma_root_input_above(s, p);
    }
}

/// The root has an input exactly when the graph holds a node other than the
/// root.
pub proof fn lemma_input_iff_nodes_below<S, P: Process<S>>(g: Audiograph<S, P>)
    requires
        g.valid(),
    ensures
        g.has_input() <==> exists|n: Seq<char>| #[trigger] g.names().contains(n) && n != ROOT_NAME@,
{
    let s = g.root.root.slots@;
    if g.has_input() {
        crate::pass::lemma_inputs_below(s, 0, s.len() as int);
        let c = inputs_of(s, 0)[0];
        assert(live(s, c) && c > 0);
        assert(live(s, 0));
        assert(name_of(s, c) != name_of(s, 0));
        assert(g.names().contains(name_of(s, c)));
    }
    if exists|n: Seq<char>| #[trigger] g.names().contains(n) && n != ROOT_NAME@ {
        let n = choose|n: Seq<char>| #[trigger] g.names().contains(n) && n != ROOT_NAME@;
        let j = choose|j: int| live(s, j) && name_of(s, j) == n;
        assert(j != 0);
        lemma_root_input_above(s, j);
    }
}

} // verus!
