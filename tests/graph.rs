use audio_graph::{Audiograph, Event, Mixer, Multiplier, Node, Process, Sample, SampleIdx, SamplingRate, Sentinel, Time, Watcher};

/// A floating-point sample.
#[derive(Clone, Copy, Debug, PartialEq)]
struct Pcm(f32);

impl Sample for Pcm {
    fn zero() -> Pcm {
        Pcm(0.0)
    }

    fn one() -> Pcm {
        Pcm(1.0)
    }

    fn sum(self, other: Pcm) -> Pcm {
        Pcm(self.0 + other.0)
    }

    fn product(self, other: Pcm) -> Pcm {
        Pcm(self.0 * other.0)
    }
}

fn values(buf: &[Pcm]) -> Vec<f32> {
    buf.iter().map(|p| p.0).collect()
}

const RATE: u32 = 44100;
const NUM_SAMPLES: usize = 5 * 44100;

#[derive(Clone)]
struct SineWave {
    ampl: f32,
    freq: f32,
    step: usize,
}

impl SineWave {
    fn new(ampl: f32, freq: f32) -> Self {
        SineWave { ampl, freq, step: 0 }
    }

    fn value_at(ampl: f32, freq: f32, step: usize) -> f32 {
        ((step as f32) / 44100.0 * freq).sin() * ampl
    }
}

enum Change {
    ScaleFreq(f32),
}

enum Unit {
    Sine(SineWave),
    Mix(Mixer),
    Mult(Multiplier),
}

impl Process<Pcm> for Unit {
    type Update = Change;

    fn process_next_value(&mut self, inputs: &[Pcm]) -> Pcm {
        match self {
            Unit::Sine(s) => {
                s.step += 1;
                Pcm(SineWave::value_at(s.ampl, s.freq, s.step))
            }
            Unit::Mix(m) => m.process_next_value(inputs),
            Unit::Mult(m) => m.process_next_value(inputs),
        }
    }

    fn accepts(&self, _update: &Change) -> bool {
        matches!(self, Unit::Sine(_))
    }

    fn apply(&mut self, update: &Change) {
        if let Unit::Sine(s) = self {
            match update {
                Change::ScaleFreq(k) => s.freq *= k,
            }
        }
    }
}

type Graph = Audiograph<Pcm, Unit>;

fn sine(name: &str, ampl: f32, freq: f32) -> Node<Pcm, Unit> {
    Node::new(name, Unit::Sine(SineWave::new(ampl, freq)))
}

fn mixer(name: &str) -> Node<Pcm, Unit> {
    Node::new(name, Unit::Mix(Mixer))
}

fn multiplier(name: &str) -> Node<Pcm, Unit> {
    Node::new(name, Unit::Mult(Multiplier))
}

fn create_empty_buffer(n: usize) -> Vec<Pcm> {
    vec![Pcm(0.0); n]
}

fn scale_freq(k: f32, secs: u64, audio: &Graph) -> Event<Pcm, Unit> {
    Event::update_params(Change::ScaleFreq(k), Time::new(secs, 0), audio)
}

fn sorted_names(audio: &Graph) -> Vec<String> {
    let mut names = audio.node_names();
    names.sort();
    names
}

#[test]
fn simple_sinewave_graph() {
    let sw1 = sine("sinewave", 0.1, 2500.0);

    let mut buf = create_empty_buffer(NUM_SAMPLES);
    let w = Watcher::on(sw1);
    let mut audio = Audiograph::new(RATE, w);
    audio.stream_into(&mut buf, true);
}

#[test]
fn audio_graph_as_iterator() {
    let sw1 = sine("sinewave", 0.1, 2500.0);

    let w = Watcher::on(sw1);
    let mut audio = Audiograph::new(RATE, w);
    let buf: Vec<f32> = (0..40000).map(|_| audio.next_sample().0).collect();
    assert_eq!(buf.len(), 40000);
    assert_eq!(buf[0], SineWave::value_at(0.1, 2500.0, 1));
    assert_eq!(buf[39999], SineWave::value_at(0.1, 2500.0, 40000));
}

#[test]
fn remove_the_whole_audiograph() {
    let sw1 = sine("sw1", 0.1, 2500.0);
    let sw2 = sine("sw2", 0.1, 9534.0);
    let mut mixer = mixer("mixer");
    mixer.add_input(sw1).add_input(sw2);

    let w = Watcher::on(mixer);
    let mut audio = Audiograph::new(RATE, w);

    // remove the node below the root
    assert!(audio.delete_node("mixer"));

    let mut buf = create_empty_buffer(NUM_SAMPLES);
    audio.stream_into(&mut buf, true);

    // the graph is empty: the buffer holds silence
    assert_eq!(buf, create_empty_buffer(NUM_SAMPLES));
}

#[test]
fn mixer_audio_graph() {
    let sw1 = sine("sw1", 0.1, 2500.0);
    let sw2 = sine("sw2", 0.1, 9534.0);
    let mut mixer = mixer("mixer");
    mixer.add_input(sw1).add_input(sw2);

    let w = Watcher::on(mixer);
    let mut audio = Audiograph::new(RATE, w);

    let mut buf = create_empty_buffer(NUM_SAMPLES);
    audio.stream_into(&mut buf, true);
}

#[test]
fn add_input_to() {
    let sw1 = sine("sw1", 0.1, 2500.0);
    let mut mixer = mixer("mixer");
    mixer.add_input(sw1);

    let w = Watcher::on(mixer);
    let mut audio = Audiograph::new(RATE, w);

    let sw2 = sine("sw2", 0.1, 5000.0);
    assert!(audio.add_input_to("mixer", sw2));

    let mut buf = create_empty_buffer(NUM_SAMPLES);
    audio.stream_into(&mut buf, true);
}

#[test]
fn event_add_node() {
    let sw1 = sine("sw1", 0.1, 2500.0);
    let mut mixer = mixer("mixer");
    mixer.add_input(sw1);

    let w = Watcher::on(mixer);
    let mut audio = Audiograph::new(RATE, w);

    let sw2 = sine("sw2", 0.1, 5000.0);

    let event = Event::add_input(sw2, Time::new(2, 0), &audio);
    assert!(audio.register_event("mixer", event));

    let mut buf = create_empty_buffer(NUM_SAMPLES);
    audio.stream_into(&mut buf, true);
}

#[test]
fn delete_node_from_audio_graph() {
    let sw1 = sine("sw1", 0.1, 2500.0);
    let sw2 = sine("sw2", 0.2, 9534.0);
    let mut mixer = mixer("mixer");
    mixer.add_input(sw1).add_input(sw2);

    let w = Watcher::on(mixer);
    let mut audio = Audiograph::new(RATE, w);

    let event = scale_freq(1.1, 2, &audio);

    assert!(audio.register_event("sw2", event));

    let mut buf = create_empty_buffer(NUM_SAMPLES);
    audio.stream_into(&mut buf, true);
}

#[test]
fn simple_event() {
    let sw1 = sine("sw1", 0.1, 2500.0);

    let sampling_rate = 44100;
    let mut audio = Audiograph::new(sampling_rate, Watcher::on(sw1));

    for i in 0..5 {
        // create the event on a node
        let event = scale_freq(1.1, i, &audio);
        assert!(audio.register_event("sw1", event));
    }

    let mut buf = create_empty_buffer(NUM_SAMPLES);
    audio.stream_into(&mut buf, true);
}

#[test]
fn event_on_graph() {
    let sw1 = sine("sw1", 0.1, 2500.0);
    let sw2 = sine("sw2", 0., 9534.0);
    let mut mixer = mixer("mixer");
    mixer.add_input(sw1).add_input(sw2);

    let w = Watcher::on(mixer);

    let sampling_rate = 44100;
    let mut audio = Audiograph::new(sampling_rate, w);

    for i in 0..5 {
        // create the event on a node
        let e1 = scale_freq(1.1, i, &audio);
        assert!(audio.register_event("sw1", e1));
        let e2 = scale_freq(1.1, i, &audio);
        assert!(audio.register_event("sw2", e2));
        let e3 = scale_freq(1.1, i, &audio);
        assert!(!audio.register_event("sw3", e3));
    }

    let mut buf = create_empty_buffer(NUM_SAMPLES);
    audio.stream_into(&mut buf, true);
}

#[test]
fn lfo_modulating_amplitude() {
    let lfo = sine("lfo", 1.0, 10.0);
    let sw1 = sine("sw1", 1.0, 1200.0);
    let mut mult = multiplier("multiplier");
    mult.add_input(lfo).add_input(sw1);

    let w = Watcher::on(mult);

    let sampling_rate = 44100;
    let mut audio = Audiograph::new(sampling_rate, w);

    for i in 0..5 {
        // create the event on a node
        let event = scale_freq(1.1, i, &audio);
        assert!(audio.register_event("sw1", event));
    }

    let mut buf = create_empty_buffer(NUM_SAMPLES);
    audio.stream_into(&mut buf, true);
}

#[test]
fn note_on() {
    let lfo = sine("lfo", 1.0, 10.0);
    let sw1 = sine("sw1", 1.0, 1200.0);
    let mut mult = multiplier("multiplier");
    mult.add_input(lfo).add_input(sw1);

    let w = Watcher::on(mult);

    let sampling_rate = 44100;
    let mut audio = Audiograph::new(sampling_rate, w);

    // create the event on a node
    let e1 = Event::note_off(Time::new(1, 0), &audio);
    assert!(audio.register_event("sw1", e1));

    let e2 = Event::note_on(Time::new(2, 0), &audio);
    assert!(audio.register_event("sw1", e2));

    let mut buf = create_empty_buffer(NUM_SAMPLES);
    audio.stream_into(&mut buf, true);
}

#[test]
fn multithreading() {
    let sw1 = sine("sw1", 0.1, 2500.0);
    let sw2 = sine("sw2", 0.02, 9534.0);
    let mut mixer = mixer("mixer");
    mixer.add_input(sw1).add_input(sw2);

    let w = Watcher::on(mixer);
    let mut audio = Audiograph::new(RATE, w);

    let mut buf = create_empty_buffer(NUM_SAMPLES);
    audio.stream_into(&mut buf, true);
}

#[test]
fn silent_pass_of_an_empty_graph() {
    let mut audio: Graph = Audiograph::new(RATE, Watcher::empty());
    let mut buf = vec![Pcm(1.0); 44100];
    audio.stream_into(&mut buf, false);
    let buf = values(&buf);
    assert!(buf.iter().all(|x| *x == 0.0));
    assert_eq!(sorted_names(&audio), vec!["root".to_string()]);
}

#[test]
fn single_sine_source() {
    let mut audio = Audiograph::new(RATE, Watcher::on(sine("sinewave", 0.1, 2500.0)));
    let mut buf = create_empty_buffer(44100);
    audio.stream_into(&mut buf, false);
    let buf = values(&buf);
    assert_eq!(buf[0], ((1.0f32 / 44100.0) * 2500.0).sin() * 0.1);
    assert!(buf.iter().all(|x| x.abs() <= 0.1 + 1e-6));
    for (i, x) in buf.iter().enumerate() {
        assert_eq!(*x, SineWave::value_at(0.1, 2500.0, i + 1));
    }
}

#[test]
fn mixer_sums_two_sines_in_both_modes() {
    let build = || {
        let mut m = mixer("mixer");
        m.add_input(sine("sw1", 0.1, 2500.0)).add_input(sine("sw2", 0.1, 9534.0));
        Audiograph::new(RATE, Watcher::on(m))
    };
    let mut seq_graph: Graph = build();
    let mut par_graph: Graph = build();
    let mut seq_buf = create_empty_buffer(44100);
    let mut par_buf = create_empty_buffer(44100);
    seq_graph.stream_into(&mut seq_buf, false);
    let seq_buf = values(&seq_buf);
    par_graph.stream_into(&mut par_buf, true);
    let par_buf = values(&par_buf);
    assert_eq!(seq_buf, par_buf);
    for (i, x) in seq_buf.iter().enumerate() {
        let want = SineWave::value_at(0.1, 2500.0, i + 1) + SineWave::value_at(0.1, 9534.0, i + 1);
        assert!((x - want).abs() < 1e-6);
    }
}

#[test]
fn subtree_deletion_leaves_only_the_root() {
    let mut m = mixer("mixer");
    m.add_input(sine("sw1", 0.1, 2500.0)).add_input(sine("sw2", 0.1, 9534.0));
    let mut audio = Audiograph::new(RATE, Watcher::on(m));
    assert_eq!(sorted_names(&audio), vec!["mixer", "root", "sw1", "sw2"]);
    assert!(audio.delete_node("mixer"));
    assert_eq!(sorted_names(&audio), vec!["root".to_string()]);
    let mut buf = vec![Pcm(0.5); 44100];
    audio.stream_into(&mut buf, false);
    let buf = values(&buf);
    assert!(buf.iter().all(|x| *x == 0.0));
}

#[test]
fn deleting_a_leaf_keeps_its_siblings() {
    let mut m = mixer("mixer");
    m.add_input(sine("sw1", 0.1, 2500.0)).add_input(sine("sw2", 0.1, 9534.0));
    let mut audio = Audiograph::new(RATE, Watcher::on(m));
    assert!(audio.delete_node("sw2"));
    assert_eq!(sorted_names(&audio), vec!["mixer", "root", "sw1"]);
    let mut buf = create_empty_buffer(100);
    audio.stream_into(&mut buf, false);
    let buf = values(&buf);
    for (i, x) in buf.iter().enumerate() {
        assert_eq!(*x, SineWave::value_at(0.1, 2500.0, i + 1));
    }
}

#[test]
fn deleting_the_root_or_an_unknown_name_fails() {
    let mut audio = Audiograph::new(RATE, Watcher::on(sine("sw1", 0.1, 2500.0)));
    assert!(!audio.delete_node("root"));
    assert!(!audio.delete_node("nothing"));
    assert_eq!(sorted_names(&audio), vec!["root", "sw1"]);
}

#[test]
fn scheduled_parameter_changes() {
    let mut audio = Audiograph::new(RATE, Watcher::on(sine("sw1", 0.1, 2500.0)));
    for secs in 1..5 {
        let event = scale_freq(1.1, secs, &audio);
        assert!(audio.register_event("sw1", event));
    }
    let mut buf = create_empty_buffer(NUM_SAMPLES);
    audio.stream_into(&mut buf, false);
    let buf = values(&buf);
    let mut freq: f32 = 2500.0;
    for (i, x) in buf.iter().enumerate() {
        if i > 0 && i % 44100 == 0 {
            freq *= 1.1;
        }
        assert_eq!(*x, SineWave::value_at(0.1, freq, i + 1), "sample {}", i);
    }
}

#[test]
fn note_gating_silences_a_range() {
    let mut audio = Audiograph::new(RATE, Watcher::on(sine("sw1", 1.0, 1200.0)));
    let off = Event::note_off(Time::from_secs(1), &audio);
    assert!(audio.register_event("sw1", off));
    let on = Event::note_on(Time::from_secs(2), &audio);
    assert!(audio.register_event("sw1", on));
    let mut buf = create_empty_buffer(3 * 44100);
    audio.stream_into(&mut buf, false);
    let buf = values(&buf);
    for i in 0..44100 {
        assert_eq!(buf[i], SineWave::value_at(1.0, 1200.0, i + 1));
    }
    assert!(buf[44100..88200].iter().all(|x| *x == 0.0));
    // the processor does not run while the node is switched off
    for i in 88200..3 * 44100 {
        assert_eq!(buf[i], SineWave::value_at(1.0, 1200.0, i - 44100 + 1));
    }
}

#[test]
fn event_at_index_zero_applies_before_the_first_sample() {
    let mut audio = Audiograph::new(RATE, Watcher::on(sine("sw1", 1.0, 1200.0)));
    let off = Event::note_off(Time::from_secs(0), &audio);
    assert!(audio.register_event("sw1", off));
    let mut buf = vec![Pcm(1.0); 10];
    audio.stream_into(&mut buf, false);
    let buf = values(&buf);
    assert!(buf.iter().all(|x| *x == 0.0));
}

#[test]
fn event_past_the_block_waits_for_a_later_pass() {
    let mut audio = Audiograph::new(100, Watcher::on(sine("sw1", 1.0, 1200.0)));
    let off = Event::note_off(Time::new(1, 500_000_000), &audio);
    assert!(audio.register_event("sw1", off));
    let mut first = create_empty_buffer(100);
    audio.stream_into(&mut first, false);
    let first = values(&first);
    assert!(first.iter().all(|x| *x != 0.0));
    let mut second = create_empty_buffer(100);
    audio.stream_into(&mut second, false);
    let second = values(&second);
    assert!(second[..50].iter().all(|x| *x != 0.0));
    assert!(second[50..].iter().all(|x| *x == 0.0));
}

#[test]
fn events_at_one_index_apply_in_registration_order() {
    let mut audio = Audiograph::new(RATE, Watcher::on(sine("sw1", 1.0, 1200.0)));
    let off = Event::note_off(Time::from_secs(0), &audio);
    let on = Event::note_on(Time::from_secs(0), &audio);
    assert!(audio.register_event("sw1", off));
    assert!(audio.register_event("sw1", on));
    let mut buf = create_empty_buffer(4);
    audio.stream_into(&mut buf, false);
    let buf = values(&buf);
    assert!(buf.iter().all(|x| *x != 0.0));

    let mut other = Audiograph::new(RATE, Watcher::on(sine("sw1", 1.0, 1200.0)));
    let on = Event::note_on(Time::from_secs(0), &other);
    let off = Event::note_off(Time::from_secs(0), &other);
    assert!(other.register_event("sw1", on));
    assert!(other.register_event("sw1", off));
    let mut buf = create_empty_buffer(4);
    other.stream_into(&mut buf, false);
    let buf = values(&buf);
    assert!(buf.iter().all(|x| *x == 0.0));
}

#[test]
fn on_off_on_the_root_silences_the_graph() {
    let mut audio = Audiograph::new(RATE, Watcher::on(sine("sw1", 1.0, 1200.0)));
    let off = Event::note_off(Time::from_secs(0), &audio);
    assert!(audio.register_event("root", off));
    let mut buf = vec![Pcm(1.0); 8];
    audio.stream_into(&mut buf, false);
    let buf = values(&buf);
    assert!(buf.iter().all(|x| *x == 0.0));
}

#[test]
fn update_for_a_mixer_is_refused() {
    let mut m = mixer("mixer");
    m.add_input(sine("sw1", 0.1, 2500.0));
    let mut audio = Audiograph::new(RATE, Watcher::on(m));
    let event = scale_freq(1.1, 1, &audio);
    assert!(!audio.register_event("mixer", event));
    let event = scale_freq(1.1, 1, &audio);
    assert!(!audio.register_event("root", event));
    let off = Event::note_off(Time::from_secs(1), &audio);
    assert!(audio.register_event("mixer", off));
}

#[test]
fn add_input_to_unknown_node_fails() {
    let mut audio = Audiograph::new(RATE, Watcher::on(mixer("mixer")));
    assert!(!audio.add_input_to("nothing", sine("sw1", 0.1, 2500.0)));
    assert_eq!(sorted_names(&audio), vec!["mixer", "root"]);
    assert!(audio.add_input_to("mixer", sine("sw1", 0.1, 2500.0)));
    assert_eq!(sorted_names(&audio), vec!["mixer", "root", "sw1"]);
}

#[test]
fn add_input_replaces_a_node_of_the_same_name() {
    let mut m = mixer("mixer");
    m.add_input(sine("sw1", 0.1, 2500.0));
    let mut audio = Audiograph::new(RATE, Watcher::on(m));
    assert!(audio.add_input_to("mixer", sine("sw1", 0.2, 5000.0)));
    assert_eq!(sorted_names(&audio), vec!["mixer", "root", "sw1"]);
    let mut buf = create_empty_buffer(10);
    audio.stream_into(&mut buf, false);
    let buf = values(&buf);
    for (i, x) in buf.iter().enumerate() {
        assert!((x - SineWave::value_at(0.2, 5000.0, i + 1)).abs() < 1e-6);
    }
    // a node cannot be hung below a node it would replace
    assert!(!audio.add_input_to("mixer", mixer("mixer")));
}

#[test]
fn added_input_is_heard_from_the_next_pass() {
    let mut m = mixer("mixer");
    m.add_input(sine("sw1", 0.1, 2500.0));
    let mut audio = Audiograph::new(100, Watcher::on(m));
    let event = Event::add_input(sine("sw2", 0.1, 5000.0), Time::new(0, 500_000_000), &audio);
    assert!(audio.register_event("mixer", event));
    let mut first = create_empty_buffer(100);
    audio.stream_into(&mut first, false);
    let first = values(&first);
    for (i, x) in first.iter().enumerate() {
        assert_eq!(*x, SineWave::value_at(0.1, 2500.0, i + 1));
    }
    assert_eq!(sorted_names(&audio), vec!["mixer", "root", "sw1", "sw2"]);
    let mut second = create_empty_buffer(1);
    audio.stream_into(&mut second, false);
    let second = values(&second);
    let want = SineWave::value_at(0.1, 2500.0, 101) + SineWave::value_at(0.1, 5000.0, 1);
    assert!((second[0] - want).abs() < 1e-6);
}

#[test]
fn set_root_replaces_the_tree() {
    let mut audio = Audiograph::new(RATE, Watcher::on(sine("sw1", 0.1, 2500.0)));
    audio.set_root(Watcher::on(sine("other", 0.1, 100.0)));
    assert_eq!(sorted_names(&audio), vec!["other", "root"]);
}

#[test]
fn watcher_passes_its_input_through() {
    let mut audio = Audiograph::new(RATE, Watcher::on(multiplier("m")));
    let mut buf = create_empty_buffer(3);
    audio.stream_into(&mut buf, false);
    let buf = values(&buf);
    assert_eq!(buf, vec![1.0, 1.0, 1.0]);
}

#[test]
fn watcher_refuses_a_tree_named_root() {
    let audio: Graph = Audiograph::new(RATE, Watcher::on(sine("root", 0.1, 2500.0)));
    assert_eq!(sorted_names(&audio), vec!["root".to_string()]);
}

#[test]
fn node_add_input_and_name() {
    let mut m = mixer("mixer");
    assert_eq!(m.get_name(), "mixer");
    m.add_input(sine("a", 0.1, 1.0)).add_input(sine("b", 0.1, 1.0));
    let mut other = mixer("other");
    other.add_input(sine("a", 0.1, 1.0));
    m.add_input(other);
    let audio = Audiograph::new(RATE, Watcher::on(m));
    assert_eq!(sorted_names(&audio), vec!["a", "b", "mixer", "other", "root"]);
}

#[test]
fn play_on_applies_at_once() {
    let audio: Graph = Audiograph::new(RATE, Watcher::empty());
    let mut m = mixer("mixer");
    Event::add_input(sine("a", 0.1, 1.0), Time::from_secs(9), &audio).play_on(&mut m);
    Event::note_off(Time::from_secs(9), &audio).play_on(&mut m);
    let mut audio = Audiograph::new(RATE, Watcher::on(m));
    assert_eq!(sorted_names(&audio), vec!["a", "mixer", "root"]);
    let mut buf = vec![Pcm(1.0); 4];
    audio.stream_into(&mut buf, false);
    let buf = values(&buf);
    assert!(buf.iter().all(|x| *x == 0.0));
}

#[test]
fn node_register_event_queues_on_the_node() {
    let audio: Graph = Audiograph::new(RATE, Watcher::empty());
    let mut s = sine("sw1", 1.0, 1200.0);
    s.register_event(Event::note_off(Time::from_secs(0), &audio));
    let mut audio = Audiograph::new(RATE, Watcher::on(s));
    let mut buf = vec![Pcm(1.0); 4];
    audio.stream_into(&mut buf, false);
    let buf = values(&buf);
    assert!(buf.iter().all(|x| *x == 0.0));
}

#[test]
fn next_sample_follows_the_clock() {
    let mut audio = Audiograph::new(RATE, Watcher::on(sine("sw1", 1.0, 1200.0)));
    let off = Event::note_off(Time::new(0, 100_000), &audio);
    assert!(audio.register_event("sw1", off));
    let values: Vec<f32> = (0..6).map(|_| audio.next_sample().0).collect();
    // 44100 * 0.0001 s = 4.41 samples: the node turns off at index 4
    assert!(values[..4].iter().all(|x| *x != 0.0));
    assert!(values[4..].iter().all(|x| *x == 0.0));
}

#[test]
fn sample_index_from_time() {
    let rate = SamplingRate::new(44100);
    assert_eq!(rate.from_time(Time::new(2, 0)), SampleIdx(88200));
    assert_eq!(rate.from_time(Time::new(1, 500_000_000)), SampleIdx(66150));
    assert_eq!(rate.from_time(Time::new(0, 1)), SampleIdx(0));
    assert_eq!(rate.from_time(Time::new(0, 22_675)), SampleIdx(0));
    assert_eq!(rate.from_time(Time::new(0, 22_676)), SampleIdx(1));
    assert_eq!(rate.from_time(Time::new(u64::MAX, 0)), SampleIdx(usize::MAX));
    assert_eq!(SamplingRate::new(0).from_time(Time::new(5, 0)), SampleIdx(0));
}

#[test]
fn time_carries_nanoseconds() {
    let t = Time::new(1, 1_500_000_000);
    assert_eq!(t.secs, 2);
    assert_eq!(t.nanos, 500_000_000);
    assert_eq!(Time::from_secs(3), Time { secs: 3, nanos: 0 });
}

#[test]
fn event_carries_its_sample_index() {
    let audio: Graph = Audiograph::new(RATE, Watcher::empty());
    assert_eq!(audio.get_sampling_rate(), SamplingRate(44100));
    assert_eq!(Event::note_on(Time::new(1, 0), &audio).get_sample_idx(), SampleIdx(44100));
    assert_eq!(scale_freq(1.1, 3, &audio).get_sample_idx(), SampleIdx(132300));
}

#[test]
fn library_processors() {
    let mut mix = Mixer;
    let mut mult = Multiplier;
    let mut root = Sentinel;
    let p = |xs: &[f32]| xs.iter().map(|x| Pcm(*x)).collect::<Vec<Pcm>>();
    assert_eq!(Process::<Pcm>::process_next_value(&mut mix, &p(&[1.5, 2.0, -0.5])), Pcm(3.0));
    assert_eq!(Process::<Pcm>::process_next_value(&mut mix, &[]), Pcm(0.0));
    assert_eq!(Process::<Pcm>::process_next_value(&mut mult, &p(&[1.5, 2.0, -0.5])), Pcm(-1.5));
    assert_eq!(Process::<Pcm>::process_next_value(&mut mult, &[]), Pcm(1.0));
    assert_eq!(Process::<i32>::process_next_value(&mut mix, &[3, 4]), 7);
    assert_eq!(Process::<i32>::process_next_value(&mut mix, &[i32::MAX, 1]), i32::MAX);
    assert_eq!(Process::<i32>::process_next_value(&mut mult, &[-3, 4]), -12);
    assert_eq!(Process::<i32>::process_next_value(&mut mult, &[i32::MIN, 2]), i32::MIN);
    assert_eq!(Process::<Pcm>::process_next_value(&mut root, &p(&[0.25, 0.5])), Pcm(0.25));
    assert_eq!(Process::<Pcm>::process_next_value(&mut root, &[]), Pcm(0.0));
    assert_eq!(Process::<i32>::process_next_value(&mut root, &[]), 0);
    assert_eq!(root.pass_through(&[7i64, 8], 0), 7);
    assert_eq!(root.pass_through(&[], 9i64), 9);
}

#[test]
fn integer_samples_saturate() {
    assert_eq!(<i32 as Sample>::zero(), 0);
    assert_eq!(<i32 as Sample>::one(), 1);
    assert_eq!(2i32.sum(3), 5);
    assert_eq!(i32::MAX.sum(1), i32::MAX);
    assert_eq!(i32::MIN.sum(-1), i32::MIN);
    assert_eq!(6i32.product(-7), -42);
    assert_eq!(65536i32.product(65536), i32::MAX);
    assert_eq!(65536i32.product(-65536), i32::MIN);
}

#[test]
fn integer_graph_mixes_exactly() {
    let mut m: Node<i32, Mixer> = Node::new("mixer", Mixer);
    m.add_input(Node::new("a", Mixer)).add_input(Node::new("b", Mixer));
    let mut audio = Audiograph::new(8, Watcher::on(m));
    let mut buf = vec![5i32; 4];
    audio.stream_into(&mut buf, false);
    assert_eq!(buf, vec![0, 0, 0, 0]);
}
