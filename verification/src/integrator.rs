//! Control of one light path: which of the surfaces a ray reaches first, and
//! whether the path goes on, ends in the sky or ends in darkness.
//!
//! Distances arrive as ordered keys: whole numbers that compare as the
//! distances they stand for do. The bit pattern of a finite, non-negative
//! binary32 number is such a key, and [`distance_key`] admits those patterns
//! and no others.

use vstd::prelude::*;

verus! {

/// What became of a ray that was sent into the scene.
#[derive(Clone, Copy, Debug, PartialEq, Eq, Structural)]
pub enum Event {
    /// The ray met no surface within range.
    Escaped,
    /// The ray met a surface whose material swallowed it.
    Absorbed,
    /// The ray met a surface whose material sent a new ray on.
    Scattered,
}

/// How a finished path is coloured.
#[derive(Clone, Copy, Debug, PartialEq, Eq, Structural)]
pub enum Ending {
    /// The accumulated attenuation times the sky colour along the last ray.
    Sky,
    /// No light at all.
    Black,
}

/// A light path, either still being traced or finished.
#[derive(Clone, Copy, Debug, PartialEq, Eq, Structural)]
pub enum Path {
    /// The current ray is to be sent into the scene; `remaining` further
    /// bounces are allowed, this one included.
    Tracing { remaining: u32 },
    /// The path has ended.
    Finished { ending: Ending },
}

/// The biased exponent in a binary32 bit pattern: the eight bits below the
/// sign.
pub open spec fn exponent(bits: u32) -> int {
    (bits as int / 0x80_0000) % 0x100
}

/// The fraction in a binary32 bit pattern: the low 23 bits.
pub open spec fn fraction(bits: u32) -> int {
    bits as int % 0x80_0000
}

/// The pattern stands for a distance: its sign bit is clear, and its
/// exponent is not the one kept for infinities and for what is no number.
pub open spec fn is_distance(bits: u32) -> bool {
    bits < 0x8000_0000 && exponent(bits) < 0xff
}

/// The bit pattern as a distance key, or `None` where the pattern stands
/// for no distance: for a negative number, an infinity or no number at all.
pub fn distance_key(bits: u32) -> (key: Option<u32>)
    ensures
        key == if is_distance(bits) {
            Some(bits)
        } else {
            None::<u32>
        },
{
    if bits < 0x7f80_0000 {
        Some(bits)
    } else {
        None
    }
}

/// Distance keys compare as the numbers do: by the exponent first, and by
/// the fraction where the exponents are equal.
pub proof fn lemma_keys_order_as_distances(a: u32, b: u32)
    requires
        is_distance(a),
        is_distance(b),
    ensures
        a < b <==> exponent(a) < exponent(b) || (exponent(a) == exponent(b) && fraction(a)
            < fraction(b)),
        a == b <==> exponent(a) == exponent(b) && fraction(a) == fraction(b),
{
}

/// `keys[i]` is a hit, no hit is nearer, and every earlier hit is strictly
/// farther.
pub open spec fn is_nearest(keys: Seq<Option<u32>>, i: int) -> bool {
    &&& 0 <= i < keys.len()
    &&& keys[i] is Some
    &&& forall|j: int|
        0 <= j < keys.len() && (#[trigger] keys[j]) is Some ==> keys[i].unwrap() <= keys[j].unwrap()
    &&& forall|j: int|
        0 <= j < i && (#[trigger] keys[j]) is Some ==> keys[i].unwrap() < keys[j].unwrap()
}

/// `found` is the choice among `keys`: the index of the nearest hit, or
/// nothing where every entry is a miss.
pub open spec fn is_choice(keys: Seq<Option<u32>>, found: Option<int>) -> bool {
    match found {
        Some(i) => is_nearest(keys, i),
        None => forall|j: int| 0 <= j < keys.len() ==> (#[trigger] keys[j]) is None,
    }
}

/// The choice once one more surface has answered with `next`: the new
/// surface where it was hit and nothing before it was as near, and the
/// choice so far where not.
pub open spec fn choice_after(
    keys: Seq<Option<u32>>,
    found: Option<int>,
    next: Option<u32>,
) -> Option<int> {
    if next is Some && (found is None || next.unwrap() < keys[found.unwrap()].unwrap()) {
        Some(keys.len() as int)
    } else {
        found
    }
}

/// Going through the surfaces one by one keeps the choice right.
pub proof fn lemma_choice_extends(keys: Seq<Option<u32>>, found: Option<int>, next: Option<u32>)
    requires
        is_choice(keys, found),
    ensures
        is_choice(keys.push(next), choice_after(keys, found, next)),
{
    let longer = keys.push(next);
    assert forall|j: int| 0 <= j < keys.len() implies #[trigger] longer[j] == keys[j] by {}
    match choice_after(keys, found, next) {
        Some(i) => {
            assert forall|j: int|
                0 <= j < longer.len() && (#[trigger] longer[j]) is Some implies longer[i].unwrap()
                <= longer[j].unwrap() by {
                if j < keys.len() {
                    assert(keys[j] is Some);
                }
            }
            assert forall|j: int|
                0 <= j < i && (#[trigger] longer[j]) is Some implies longer[i].unwrap()
                < longer[j].unwrap() by {
                assert(keys[j] is Some);
            }
        },
        None => {},
    }
}

/// The index of the nearest hit among the surfaces, the first of them where
/// several are equally near; `None` where no surface was hit. `keys[i]` is the
/// distance key of the hit on surface `i`, or `None` for a miss.
pub fn nearest(keys: &Vec<Option<u32>>) -> (found: Option<usize>)
    ensures
        match found {
            Some(i) => is_nearest(keys@, i as int),
            None => forall|j: int| 0 <= j < keys@.len() ==> (#[trigger] keys@[j]) is None,
        },
{
    let mut found: Option<usize> = None;
    let mut best: u32 = 0;
    let ghost mut choice: Option<int> = None;
    let mut i: usize = 0;
    while i < keys.len()
        invariant
            i <= keys@.len(),
            is_choice(keys@.take(i as int), choice),
            match found {
                Some(k) => choice == Some(k as int) && k < i && keys@[k as int] == Some(best),
                None => choice is None,
            },
        decreases keys@.len() - i,
    {
        proof {
            let seen = keys@.take(i as int);
            lemma_choice_extends(seen, choice, keys@[i as int]);
            assert(keys@.take(i + 1) =~= seen.push(keys@[i as int]));
            choice = choice_after(seen, choice, keys@[i as int]);
        }
        match keys[i] {
            Some(key) => {
                if found.is_none() || key < best {
                    found = Some(i);
                    best = key;
                }
            },
            None => {},
        }
        i = i + 1;
    }
    assert(keys@.take(i as int) =~= keys@);
    found
}

/// The distance key of one answer, a miss staying a miss.
pub open spec fn key_of<H>(hit: Option<(u32, H)>) -> Option<u32> {
    match hit {
        Some(hit) => Some(hit.0),
        None => None,
    }
}

/// The distance keys of a row of hits, a miss staying a miss.
pub open spec fn keys_of<H>(hits: Seq<Option<(u32, H)>>) -> Seq<Option<u32>> {
    Seq::new(hits.len(), |i: int| key_of(hits[i]))
}

/// `hits` records one ray cast into `scene`: `hit` was asked about each
/// surface in turn and answered with what stands at its place, a distance
/// key and a hit record, or nothing for a miss.
pub open spec fn is_cast<O, H, F: Fn(&O) -> Option<(u32, H)>>(
    hit: F,
    scene: Seq<O>,
    hits: Seq<Option<(u32, H)>>,
) -> bool {
    &&& hits.len() == scene.len()
    &&& forall|i: int| 0 <= i < scene.len() ==> call_ensures(hit, (&scene[i],), #[trigger] hits[i])
}

/// `found` is the nearest of `hits`, the first of them where several are
/// equally near, or nothing where every surface was missed.
pub open spec fn is_closest<H>(hits: Seq<Option<(u32, H)>>, found: Option<(u32, H)>) -> bool {
    match found {
        Some(_) => exists|i: int| is_nearest(keys_of(hits), i) && hits[i] == found,
        None => forall|i: int| 0 <= i < hits.len() ==> (#[trigger] hits[i]) is None,
    }
}

/// Casts one ray into the scene: asks `hit` about every surface, in order
/// and once each, and returns the nearest of the hits with its distance key,
/// the first of them where several are equally near, or `None` where the ray
/// meets no surface.
pub fn closest<O, H, F: Fn(&O) -> Option<(u32, H)>>(scene: &Vec<O>, hit: F) -> (found: Option<
    (u32, H),
>)
    requires
        forall|i: int| 0 <= i < scene@.len() ==> call_requires(hit, (&scene@[i],)),
    ensures
        exists|hits: Seq<Option<(u32, H)>>| #[trigger]
            is_cast(hit, scene@, hits) && is_closest(hits, found),
{
    let mut found: Option<(u32, H)> = None;
    let ghost mut hits: Seq<Option<(u32, H)>> = Seq::empty();
    let ghost mut choice: Option<int> = None;
    let mut i: usize = 0;
    while i < scene.len()
        invariant
            i <= scene@.len(),
            forall|k: int| 0 <= k < scene@.len() ==> call_requires(hit, (&scene@[k],)),
            hits.len() == i,
            forall|k: int| 0 <= k < i ==> call_ensures(hit, (&scene@[k],), #[trigger] hits[k]),
            is_choice(keys_of(hits), choice),
            match found {
                Some(_) => choice is Some && 0 <= choice.unwrap() < i && hits[choice.unwrap()]
                    == found,
                None => choice is None,
            },
        decreases scene@.len() - i,
    {
        let candidate = hit(&scene[i]);
        let nearer = match &candidate {
            Some(new) => match &found {
                Some(old) => new.0 < old.0,
                None => true,
            },
            None => false,
        };
        proof {
            let seen = keys_of(hits);
            lemma_choice_extends(seen, choice, key_of(candidate));
            assert(keys_of(hits.push(candidate)) =~= seen.push(key_of(candidate)));
            choice = choice_after(seen, choice, key_of(candidate));
            hits = hits.push(candidate);
        }
        if nearer {
            found = candidate;
        }
        i = i + 1;
    }
    proof {
        assert(is_cast(hit, scene@, hits));
        match choice {
            Some(at) => {
                assert(is_nearest(keys_of(hits), at) && hits[at] == found);
            },
            None => {
                assert forall|k: int| 0 <= k < hits.len() implies (#[trigger] hits[k]) is None by {
                    assert(keys_of(hits)[k] is None);
                }
            },
        }
        assert(is_closest(hits, found));
    }
    found
}

/// The contract of [`nearest`] leaves no choice: at most one index is the
/// nearest.
pub proof fn lemma_nearest_is_unique(keys: Seq<Option<u32>>, i: int, j: int)
    requires
        is_nearest(keys, i),
        is_nearest(keys, j),
    ensures
        i == j,
{
}

/// The order of the surfaces does not matter to what a ray sees: two scenes
/// with the same hits in another order have their nearest hit at the same
/// distance.
pub proof fn lemma_nearest_ignores_order(
    a: Seq<Option<u32>>,
    b: Seq<Option<u32>>,
    i: int,
    j: int,
)
    requires
        a.to_multiset() == b.to_multiset(),
        is_nearest(a, i),
        is_nearest(b, j),
    ensures
        a[i] == b[j],
{
    a.to_multiset_ensures();
    b.to_multiset_ensures();
    assert(a.contains(a[i]));
    assert(b.to_multiset().count(a[i]) > 0);
    assert(b.contains(a[i]));
    let k = choose|k: int| 0 <= k < b.len() && b[k] == a[i];
    assert(b[k] is Some);
    assert(b.contains(b[j]));
    assert(a.to_multiset().count(b[j]) > 0);
    assert(a.contains(b[j]));
    let m = choose|m: int| 0 <= m < a.len() && a[m] == b[j];
    assert(a[m] is Some);
}

/// Nor does the order matter to whether a ray sees anything: where one scene
/// has no hit, no scene with the same hits in another order has one.
pub proof fn lemma_miss_ignores_order(a: Seq<Option<u32>>, b: Seq<Option<u32>>)
    requires
        a.to_multiset() == b.to_multiset(),
        forall|i: int| 0 <= i < a.len() ==> (#[trigger] a[i]) is None,
    ensures
        forall|j: int| 0 <= j < b.len() ==> (#[trigger] b[j]) is None,
{
    a.to_multiset_ensures();
    b.to_multiset_ensures();
    assert forall|j: int| 0 <= j < b.len() implies (#[trigger] b[j]) is None by {
        assert(b.contains(b[j]));
        assert(a.to_multiset().count(b[j]) > 0);
        assert(a.contains(b[j]));
        let m = choose|m: int| 0 <= m < a.len() && a[m] == b[j];
        assert(a[m] is None);
    }
}

impl Path {
    /// A path that is still traced allows at least one more bounce.
    pub open spec fn wf(self) -> bool {
        match self {
            Path::Tracing { remaining } => remaining > 0,
            Path::Finished { .. } => true,
        }
    }

    /// How many more bounces the path may take.
    pub open spec fn budget(self) -> nat {
        match self {
            Path::Tracing { remaining } => remaining as nat,
            Path::Finished { .. } => 0,
        }
    }

    /// The path with `max_depth` bounces allowed, before its first ray is
    /// sent.
    pub open spec fn initial(max_depth: u32) -> Path {
        if max_depth == 0 {
            Path::Finished { ending: Ending::Black }
        } else {
            Path::Tracing { remaining: max_depth }
        }
    }

    /// The path after `event` befell its current ray. A finished path stays
    /// as it is.
    pub open spec fn after(self, event: Event) -> Path {
        match self {
            Path::Finished { .. } => self,
            Path::Tracing { remaining } => match event {
                Event::Escaped => Path::Finished { ending: Ending::Sky },
                Event::Absorbed => Path::Finished { ending: Ending::Black },
                Event::Scattered => if remaining <= 1 {
                    Path::Finished { ending: Ending::Black }
                } else {
                    Path::Tracing { remaining: (remaining - 1) as u32 }
                },
            },
        }
    }

    /// The path after a whole run of events, taken in order.
    pub open spec fn after_all(self, events: Seq<Event>) -> Path
        decreases events.len(),
    {
        if events.len() == 0 {
            self
        } else {
            self.after(events.first()).after_all(events.drop_first())
        }
    }

    /// Starts a path that may bounce `max_depth` times. With a budget of
    /// zero it is finished, and black, before any ray is sent.
    pub fn start(max_depth: u32) -> (path: Path)
        ensures
            path == Path::initial(max_depth),
            path.wf(),
    {
        if max_depth == 0 {
            Path::Finished { ending: Ending::Black }
        } else {
            Path::Tracing { remaining: max_depth }
        }
    }

    /// Whether the path has ended.
    pub fn is_finished(&self) -> (done: bool)
        ensures
            done == (*self is Finished),
    {
        match self {
            Path::Finished { .. } => true,
            Path::Tracing { .. } => false,
        }
    }

    /// Takes the path one event further.
    pub fn advance(self, event: Event) -> (next: Path)
        ensures
            next == self.after(event),
            self.wf() ==> next.wf(),
    {
        match self {
            Path::Finished { ending } => Path::Finished { ending },
            Path::Tracing { remaining } => match event {
                Event::Escaped => Path::Finished { ending: Ending::Sky },
                Event::Absorbed => Path::Finished { ending: Ending::Black },
                Event::Scattered => if remaining <= 1 {
                    Path::Finished { ending: Ending::Black }
                } else {
                    Path::Tracing { remaining: remaining - 1 }
                },
            },
        }
    }
}

/// Taking one more event at the end of a run is one more step of the path.
pub proof fn lemma_after_all_push(path: Path, events: Seq<Event>, event: Event)
    ensures
        path.after_all(events.push(event)) == path.after_all(events).after(event),
    decreases events.len(),
{
    let longer = events.push(event);
    if events.len() == 0 {
        assert(longer.drop_first() =~= events);
        assert(path.after(event).after_all(events) == path.after(event));
    } else {
        assert(longer.drop_first() =~= events.drop_first().push(event));
        lemma_after_all_push(path.after(events.first()), events.drop_first(), event);
    }
}

/// `states` and `events` are a record of what `bounce` did: it was handed
/// each state in turn, and answered with the event at that place and the
/// state that follows.
pub open spec fn is_record<S, F: Fn(S) -> (Event, S)>(
    bounce: F,
    states: Seq<S>,
    events: Seq<Event>,
) -> bool {
    &&& states.len() == events.len() + 1
    &&& forall|i: int|
        0 <= i < events.len() ==> call_ensures(
            bounce,
            (states[i],),
            (#[trigger] events[i], states[i + 1]),
        )
}

/// `states` and `events` record a whole path of at most `max_depth` bounces
/// from `start`: the path ends with the last event and not before, with
/// `ending`, in the state `end`.
pub open spec fn is_traced<S, F: Fn(S) -> (Event, S)>(
    bounce: F,
    max_depth: u32,
    start: S,
    states: Seq<S>,
    events: Seq<Event>,
    ending: Ending,
    end: S,
) -> bool {
    &&& is_record(bounce, states, events)
    &&& events.len() <= max_depth
    &&& states.first() == start
    &&& states.last() == end
    &&& Path::initial(max_depth).after_all(events) == (Path::Finished { ending })
    &&& events.len() > 0 ==> Path::initial(max_depth).after_all(events.drop_last()) is Tracing
}

/// Traces one light path. `bounce` sends the ray of the state that it is
/// handed into the scene and answers with what became of it and with the
/// state after that; it is called once for each bounce, until the path is
/// finished, which it is after `max_depth` bounces at the latest. Returns how
/// the path ended and the state in which it did.
pub fn trace<S, F: Fn(S) -> (Event, S)>(max_depth: u32, start: S, bounce: F) -> (end: (Ending, S))
    requires
        forall|s: S| call_requires(bounce, (s,)),
    ensures
        exists|states: Seq<S>, events: Seq<Event>|
            is_traced(bounce, max_depth, start, states, events, end.0, end.1),
{
    let mut path = Path::start(max_depth);
    let mut state = start;
    let ghost mut states: Seq<S> = seq![start];
    let ghost mut events: Seq<Event> = Seq::empty();
    loop
        invariant
            forall|s: S| call_requires(bounce, (s,)),
            is_record(bounce, states, events),
            states.first() == start,
            states.last() == state,
            path.wf(),
            path == Path::initial(max_depth).after_all(events),
            events.len() > 0 ==> Path::initial(max_depth).after_all(events.drop_last()) is Tracing,
            events.len() + path.budget() <= max_depth,
        decreases path.budget(),
    {
        match path {
            Path::Finished { ending } => {
                let end = (ending, state);
                proof {
                    assert(is_traced(bounce, max_depth, start, states, events, end.0, end.1));
                }
                return end;
            },
            Path::Tracing { .. } => {},
        }
        let (event, next) = bounce(state);
        proof {
            lemma_after_all_push(Path::initial(max_depth), events, event);
            let longer = events.push(event);
            let further = states.push(next);
            assert(longer.drop_last() =~= events);
            assert forall|i: int| 0 <= i < longer.len() implies call_ensures(
                bounce,
                (further[i],),
                (#[trigger] longer[i], further[i + 1]),
            ) by {
                if i < events.len() {
                    assert(longer[i] == events[i]);
                }
            }
            states = further;
            events = longer;
        }
        path = path.advance(event);
        state = next;
    }
}

/// A ray that escapes at once sees the sky and nothing else: a traced path
/// whose first ray escapes has the sky ending, and ends in the state that
/// the one call of `bounce` returned.
pub proof fn lemma_first_escape_is_sky<S, F: Fn(S) -> (Event, S)>(
    bounce: F,
    max_depth: u32,
    start: S,
    states: Seq<S>,
    events: Seq<Event>,
    ending: Ending,
    end: S,
)
    requires
        is_traced(bounce, max_depth, start, states, events, ending, end),
        events.len() > 0,
        events[0] == Event::Escaped,
    ensures
        ending == Ending::Sky,
        events.len() == 1,
        end == states[1],
{
    let first = Path::initial(max_depth);
    if max_depth == 0 {
        lemma_finished_is_final(first, events.drop_last());
    } else {
        lemma_finished_is_final(first.after(events.first()), events.drop_first());
        if events.len() >= 2 {
            let shorter = events.drop_last();
            assert(shorter.first() == events[0]);
            lemma_finished_is_final(first.after(shorter.first()), shorter.drop_first());
        }
    }
}

/// Tracing adds no chance of its own: where `bounce` answers each state in
/// one way only, two traced paths from the same start are the same path, event
/// for event and state for state, as far as both reach.
pub proof fn lemma_record_is_determined<S, F: Fn(S) -> (Event, S)>(
    bounce: F,
    a_states: Seq<S>,
    a_events: Seq<Event>,
    b_states: Seq<S>,
    b_events: Seq<Event>,
    i: int,
)
    requires
        forall|s: S, x: (Event, S), y: (Event, S)|
            call_ensures(bounce, (s,), x) && call_ensures(bounce, (s,), y) ==> x == y,
        is_record(bounce, a_states, a_events),
        is_record(bounce, b_states, b_events),
        a_states.first() == b_states.first(),
        0 <= i <= a_events.len(),
        i <= b_events.len(),
    ensures
        a_states[i] == b_states[i],
        a_events.take(i) == b_events.take(i),
    decreases i,
{
    if i > 0 {
        lemma_record_is_determined(bounce, a_states, a_events, b_states, b_events, i - 1);
        assert(call_ensures(bounce, (a_states[i - 1],), (a_events[i - 1], a_states[i])));
        assert(call_ensures(bounce, (b_states[i - 1],), (b_events[i - 1], b_states[i])));
        assert(a_events.take(i) =~= a_events.take(i - 1).push(a_events[i - 1]));
        assert(b_events.take(i) =~= b_events.take(i - 1).push(b_events[i - 1]));
    } else {
        assert(a_events.take(0) =~= b_events.take(0));
    }
}

/// Hence the outcome of a path is determined too: where `bounce` answers
/// each state in one way only, a path has one ending and one final state.
pub proof fn lemma_trace_is_determined<S, F: Fn(S) -> (Event, S)>(
    bounce: F,
    max_depth: u32,
    start: S,
    a_states: Seq<S>,
    a_events: Seq<Event>,
    a_end: (Ending, S),
    b_states: Seq<S>,
    b_events: Seq<Event>,
    b_end: (Ending, S),
)
    requires
        forall|s: S, x: (Event, S), y: (Event, S)|
            call_ensures(bounce, (s,), x) && call_ensures(bounce, (s,), y) ==> x == y,
        is_traced(bounce, max_depth, start, a_states, a_events, a_end.0, a_end.1),
        is_traced(bounce, max_depth, start, b_states, b_events, b_end.0, b_end.1),
    ensures
        a_end == b_end,
        a_events == b_events,
{
    let first = Path::initial(max_depth);
    let n = a_events.len() as int;
    let m = b_events.len() as int;
    if n < m {
        lemma_record_is_determined(bounce, a_states, a_events, b_states, b_events, n);
        assert(a_events.take(n) =~= a_events);
        assert(b_events.drop_last().take(n) =~= b_events.take(n));
        lemma_finished_after_prefix(first, b_events.drop_last(), n);
    } else if m < n {
        lemma_record_is_determined(bounce, a_states, a_events, b_states, b_events, m);
        assert(b_events.take(m) =~= b_events);
        assert(a_events.drop_last().take(m) =~= a_events.take(m));
        lemma_finished_after_prefix(first, a_events.drop_last(), m);
    } else {
        lemma_record_is_determined(bounce, a_states, a_events, b_states, b_events, n);
        assert(a_events.take(n) =~= a_events);
        assert(b_events.take(n) =~= b_events);
    }
}

/// A path that is finished after the first `n` events of a run is finished,
/// in the same way, after all of them.
pub proof fn lemma_finished_after_prefix(path: Path, events: Seq<Event>, n: int)
    requires
        0 <= n <= events.len(),
        path.after_all(events.take(n)) is Finished,
    ensures
        path.after_all(events) == path.after_all(events.take(n)),
    decreases n,
{
    if n == 0 {
        assert(events.take(0) =~= Seq::<Event>::empty());
        lemma_finished_is_final(path, events);
    } else {
        assert(events.take(n).first() == events.first());
        assert(events.take(n).drop_first() =~= events.drop_first().take(n - 1));
        lemma_finished_after_prefix(path.after(events.first()), events.drop_first(), n - 1);
    }
}

/// A finished path is not changed by anything that follows.
pub proof fn lemma_finished_is_final(path: Path, events: Seq<Event>)
    requires
        path is Finished,
    ensures
        path.after_all(events) == path,
    decreases events.len(),
{
    if events.len() > 0 {
        lemma_finished_is_final(path, events.drop_first());
    }
}

/// The depth budget bounds the path: once as many events as the budget have
/// been taken, the path has ended, whatever the events were.
pub proof fn lemma_depth_bounds_path(max_depth: u32, events: Seq<Event>)
    requires
        events.len() >= max_depth,
    ensures
        Path::initial(max_depth).after_all(events) is Finished,
    decreases events.len(),
{
    let first = Path::initial(max_depth);
    if max_depth == 0 {
        lemma_finished_is_final(first, events);
    } else {
        let second = first.after(events.first());
        if second is Finished {
            lemma_finished_is_final(second, events.drop_first());
        } else {
            assert(second == Path::initial((max_depth - 1) as u32));
            lemma_depth_bounds_path((max_depth - 1) as u32, events.drop_first());
        }
    }
}

/// A path that only ever scatters ends black when its budget is used up,
/// and not before.
pub proof fn lemma_scatter_uses_budget(max_depth: u32, events: Seq<Event>)
    requires
        forall|i: int| 0 <= i < events.len() ==> events[i] == Event::Scattered,
    ensures
        events.len() < max_depth ==> Path::initial(max_depth).after_all(events) == (Path::Tracing {
            remaining: (max_depth - events.len()) as u32,
        }),
        events.len() >= max_depth ==> Path::initial(max_depth).after_all(events) == (
        Path::Finished { ending: Ending::Black }),
    decreases events.len(),
{
    let first = Path::initial(max_depth);
    if max_depth == 0 {
        lemma_finished_is_final(first, events);
    } else if events.len() > 0 {
        let rest = events.drop_first();
        assert(forall|i: int| 0 <= i < rest.len() ==> rest[i] == events[i + 1]);
        assert(first.after(events.first()) == Path::initial((max_depth - 1) as u32));
        lemma_scatter_uses_budget((max_depth - 1) as u32, rest);
    }
}

/// Ray `k` of the run escapes, within a budget of `max_depth` bounces, and
/// every ray before it was scattered.
pub open spec fn escapes_at(max_depth: u32, events: Seq<Event>, k: int) -> bool {
    &&& 0 <= k < events.len()
    &&& k < max_depth
    &&& events[k] == Event::Escaped
    &&& forall|i: int| 0 <= i < k ==> events[i] == Event::Scattered
}

/// Light reaches a path only from the sky: a path ends with the sky ending
/// exactly when, within its budget, some ray escapes and every ray before it
/// was scattered.
pub proof fn lemma_sky_needs_escape(max_depth: u32, events: Seq<Event>)
    ensures
        Path::initial(max_depth).after_all(events) == (Path::Finished { ending: Ending::Sky })
            <==> exists|k: int| escapes_at(max_depth, events, k),
    decreases events.len(),
{
    let first = Path::initial(max_depth);
    if max_depth == 0 {
        lemma_finished_is_final(first, events);
    } else if events.len() > 0 {
        let rest = events.drop_first();
        let second = first.after(events.first());
        assert(forall|i: int| 0 <= i < rest.len() ==> rest[i] == events[i + 1]);
        match events.first() {
            Event::Escaped => {
                lemma_finished_is_final(second, rest);
                assert(escapes_at(max_depth, events, 0));
            },
            Event::Absorbed => {
                lemma_finished_is_final(second, rest);
                assert forall|k: int| !escapes_at(max_depth, events, k) by {
                    if escapes_at(max_depth, events, k) && k > 0 {
                        assert(events[0] == Event::Scattered);
                    }
                }
            },
            Event::Scattered => {
                let less = (max_depth - 1) as u32;
                assert(second == Path::initial(less));
                lemma_sky_needs_escape(less, rest);
                if exists|k: int| escapes_at(less, rest, k) {
                    let k = choose|k: int| escapes_at(less, rest, k);
                    assert forall|i: int| 0 <= i < k + 1 implies events[i] == Event::Scattered by {
                        if i > 0 {
                            assert(rest[i - 1] == events[i]);
                        }
                    }
                    assert(escapes_at(max_depth, events, k + 1));
                }
                if exists|k: int| escapes_at(max_depth, events, k) {
                    let k = choose|k: int| escapes_at(max_depth, events, k);
                    assert(k > 0);
                    assert forall|i: int| 0 <= i < k - 1 implies rest[i] == Event::Scattered by {
                        assert(events[i + 1] == Event::Scattered);
                    }
                    assert(escapes_at(less, rest, k - 1));
                }
            },
        }
    }
}

} // verus!
