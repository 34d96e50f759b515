use vstd::prelude::*;

use crate::graph::Audiograph;
use crate::node::{Node, Stage};
use crate::process::Process;
use crate::sampling::{SampleIdx, Time};

verus! {

/// A change to a node, due at an absolute sample index.
pub enum Event<S, P: Process<S>> {
    /// Applies `update` to the node's processor.
    UpdateParams { sample: SampleIdx, update: P::Update },
    /// Adds `node`, with its own inputs, as an input of the node.
    AddInput { sample: SampleIdx, node: Node<S, P> },
    /// Switches the node off: it emits silence.
    NoteOff { sample: SampleIdx },
    /// Switches the node on.
    NoteOn { sample: SampleIdx },
}

impl<S, P: Process<S>> Event<S, P> {
    /// The sample index at which the event is due.
    pub open spec fn idx(&self) -> int {
        match self {
            Event::UpdateParams { sample, .. } => sample.0 as int,
            Event::AddInput { sample, .. } => sample.0 as int,
            Event::NoteOff { sample } => sample.0 as int,
            Event::NoteOn { sample } => sample.0 as int,
        }
    }

    /// The sample index at which the event is due.
    pub fn get_sample_idx(&self) -> (r: SampleIdx)
        ensures
            r.0 == self.idx(),
    {
        match self {
            Event::UpdateParams { sample, .. } => *sample,
            Event::AddInput { sample, .. } => *sample,
            Event::NoteOff { sample } => *sample,
            Event::NoteOn { sample } => *sample,
        }
    }

    /// An update of the processor's parameters, due at `time` on the graph's clock.
    pub fn update_params(update: P::Update, time: Time, audio: &Audiograph<S, P>) -> (e: Self)
        ensures
            e matches Event::UpdateParams { sample, update: u } && u == update,
            e.idx() == crate::sampling::index_at(audio.rate().0, time),
    {
        let sample = audio.get_sampling_rate().from_time(time);
        Event::UpdateParams { sample, update }
    }

    /// Switches the node on at `time` on the graph's clock.
    pub fn note_on(time: Time, audio: &Audiograph<S, P>) -> (e: Self)
        ensures
            e is NoteOn,
            e.idx() == crate::sampling::index_at(audio.rate().0, time),
    {
        let sample = audio.get_sampling_rate().from_time(time);
        Event::NoteOn { sample }
    }

    /// Switches the node off at `time` on the graph's clock.
    pub fn note_off(time: Time, audio: &Audiograph<S, P>) -> (e: Self)
        ensures
            e is NoteOff,
            e.idx() == crate::sampling::index_at(audio.rate().0, time),
    {
        let sample = audio.get_sampling_rate().from_time(time);
        Event::NoteOff { sample }
    }

    /// Applies the event to `node` at once, whatever its index.
    pub fn play_on(self, node: &mut Node<S, P>)
        ensures
            final(node).name() == old(node).name(),
            final(node).events() == old(node).events(),
            self is NoteOn ==> final(node).is_on(),
            self is NoteOff ==> !final(node).is_on(),
            self is UpdateParams ==> final(node).is_on() == old(node).is_on(),
            !(self is AddInput) ==> final(node).names() == old(node).names(),
            self is NoteOn || self is NoteOff ==> final(node).stage() == old(node).stage(),
            self matches Event::UpdateParams { update, .. } ==> match old(node).stage() {
                Stage::Unit(p) => P::modeled() ==> final(node).stage() == Stage::<P>::Unit(
                    p.spec_apply(update),
                ),
                Stage::Root(r) => final(node).stage() == Stage::<P>::Root(r),
            },
            self matches Event::AddInput { node: input, .. } ==> {
                &&& final(node).is_on() == old(node).is_on()
                &&& final(node).stage() == old(node).stage()
                &&& input.names().contains(old(node).name()) ==> final(node).names() == old(
                    node,
                ).names()
                &&& !input.names().contains(old(node).name()) ==> final(node).names() == old(
                    node,
                ).kept_names(input.names()) + input.names()
            },
    {
        node.play(self);
    }

    /// Adds `node` as an input at `time` on the graph's clock.
    pub fn add_input(node: Node<S, P>, time: Time, audio: &Audiograph<S, P>) -> (e: Self)
        ensures
            e matches Event::AddInput { sample, node: n } && n == node,
            e.idx() == crate::sampling::index_at(audio.rate().0, time),
    {
        let sample = audio.get_sampling_rate().from_time(time);
        Event::AddInput { sample, node }
    }
}

} // verus!
