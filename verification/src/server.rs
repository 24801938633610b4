//! Settings of the streaming HTTP server.
use vstd::prelude::*;

verus! {

/// Where the server binds and whether it outlives the first response.
pub struct ServerConfig {
    pub host: String,
    pub port: u16,
    pub persist: bool,
}

impl Default for ServerConfig {
    /// Loopback, an OS-assigned port, no persistence.
    fn default() -> (r: Self)
        ensures
            r.host@ == "127.0.0.1"@,
            r.port == 0,
            !r.persist,
    {
        Self { host: String::from_str("127.0.0.1"), port: 0, persist: false }
    }
}


// ── Streaming a response ────────────────────────────────────────────────────

/// What a response stream sees while it waits for input.
#[derive(Debug, Clone, Copy, PartialEq, Eq, Structural)]
pub enum StreamEvent {
    /// A live chunk arrived.
    Live,
    /// The stream fell behind and missed chunks.
    Lagged,
    /// The live channel closed.
    Closed,
    /// The input has ended.
    Done,
}

/// What the response stream does next.
#[derive(Debug, Clone, Copy, PartialEq, Eq, Structural)]
pub enum StreamAction {
    /// Send the chunk to the browser.
    Forward,
    /// Go on waiting.
    Skip,
    /// End the response.
    Finish,
    /// Send the chunks still queued, then end the response.
    DrainThenFinish,
}

pub open spec fn stream_step_spec(ev: StreamEvent) -> StreamAction {
    match ev {
        StreamEvent::Live => StreamAction::Forward,
        StreamEvent::Lagged => StreamAction::Skip,
        StreamEvent::Closed => StreamAction::Finish,
        StreamEvent::Done => StreamAction::DrainThenFinish,
    }
}

/// The response stream's decision on one event: live chunks are forwarded,
/// missed ones skipped, a closed channel ends the response, and the end of
/// input drains what is queued and then ends it.
pub fn stream_step(ev: StreamEvent) -> (a: StreamAction)
    ensures
        a == stream_step_spec(ev),
{
    match ev {
        StreamEvent::Live => StreamAction::Forward,
        StreamEvent::Lagged => StreamAction::Skip,
        StreamEvent::Closed => StreamAction::Finish,
        StreamEvent::Done => StreamAction::DrainThenFinish,
    }
}

/// After a response has been streamed, the server shuts down unless it
/// persists (to serve reloads).
pub fn shutdown_after_response(persist: bool) -> (r: bool)
    ensures
        r == !persist,
{
    !persist
}

/// Every chunk sent so far, in order: what each new request gets first.
pub struct Replay {
    chunks: Vec<Vec<u8>>,
}

pub open spec fn chunks_view(v: Seq<Vec<u8>>) -> Seq<Seq<u8>> {
    v.map_values(|c: Vec<u8>| c@)
}

impl View for Replay {
    type V = Seq<Seq<u8>>;

    closed spec fn view(&self) -> Seq<Seq<u8>> {
        chunks_view(self.chunks@)
    }
}

fn copy_bytes(c: &[u8]) -> (r: Vec<u8>)
    ensures
        r@ == c@,
{
    let mut out: Vec<u8> = Vec::new();
    let mut i: usize = 0;
    while i < c.len()
        invariant
            i <= c.len(),
            out@ == c@.take(i as int),
        decreases c.len() - i,
    {
        out.push(c[i]);
        i += 1;
        assert(out@ =~= c@.take(i as int));
    }
    assert(c@.take(c.len() as int) =~= c@);
    out
}

impl Replay {
    pub fn new() -> (r: Self)
        ensures
            r@ == Seq::<Seq<u8>>::empty(),
    {
        let r = Replay { chunks: Vec::new() };
        assert(r@ =~= Seq::<Seq<u8>>::empty());
        r
    }

    /// Records chunk `c` after the others.
    pub fn push(&mut self, c: &[u8])
        ensures
            final(self)@ == old(self)@.push(c@),
    {
        let v = copy_bytes(c);
        self.chunks.push(v);
        assert(self@ =~= old(self)@.push(c@));
    }

    /// Number of chunks recorded.
    pub fn len(&self) -> (n: usize)
        ensures
            n == self@.len(),
    {
        self.chunks.len()
    }

    /// Chunk `i`.
    pub fn get(&self, i: usize) -> (r: &[u8])
        requires
            i < self@.len(),
        ensures
            r@ == self@[i as int],
    {
        self.chunks[i].as_slice()
    }
}

/// The chunks queued when the input ended: the live ones up to the first
/// other event.
pub open spec fn drained(arrivals: Seq<(StreamEvent, Seq<u8>)>) -> Seq<Seq<u8>>
    decreases arrivals.len(),
{
    if arrivals.len() == 0 {
        Seq::empty()
    } else if arrivals[0].0 == StreamEvent::Live {
        seq![arrivals[0].1] + drained(arrivals.drop_first())
    } else {
        Seq::empty()
    }
}

/// What a response forwards of the events it sees (each with the chunk it
/// carries, if any), following [`stream_step`].
pub open spec fn forwarded(arrivals: Seq<(StreamEvent, Seq<u8>)>) -> Seq<Seq<u8>>
    decreases arrivals.len(),
{
    if arrivals.len() == 0 {
        Seq::empty()
    } else {
        let rest = arrivals.drop_first();
        match stream_step_spec(arrivals[0].0) {
            StreamAction::Forward => seq![arrivals[0].1] + forwarded(rest),
            StreamAction::Skip => forwarded(rest),
            StreamAction::Finish => Seq::empty(),
            StreamAction::DrainThenFinish => drained(rest),
        }
    }
}

/// A response: the replayed chunks, then what it forwards live.
pub open spec fn response(replayed: Seq<Seq<u8>>, arrivals: Seq<(StreamEvent, Seq<u8>)>) -> Seq<Seq<u8>> {
    replayed + forwarded(arrivals)
}

/// A new replay buffer after the chunks are pushed in turn.
pub open spec fn pushed_all(cs: Seq<Seq<u8>>) -> Seq<Seq<u8>>
    decreases cs.len(),
{
    if cs.len() == 0 {
        Seq::empty()
    } else {
        pushed_all(cs.drop_last()).push(cs.last())
    }
}

/// Chunks arriving live.
pub open spec fn live(cs: Seq<Seq<u8>>) -> Seq<(StreamEvent, Seq<u8>)> {
    cs.map_values(|c: Seq<u8>| (StreamEvent::Live, c))
}

proof fn lemma_pushed_all(cs: Seq<Seq<u8>>)
    ensures
        pushed_all(cs) == cs,
    decreases cs.len(),
{
    if cs.len() > 0 {
        lemma_pushed_all(cs.drop_last());
        assert(cs.drop_last().push(cs.last()) =~= cs);
    }
}

proof fn lemma_forward_live(cs: Seq<Seq<u8>>, tail: Seq<(StreamEvent, Seq<u8>)>)
    ensures
        forwarded(live(cs) + tail) == cs + forwarded(tail),
        drained(live(cs) + tail) == cs + drained(tail),
    decreases cs.len(),
{
    if cs.len() == 0 {
        assert(live(cs) + tail =~= tail);
        assert(cs + forwarded(tail) =~= forwarded(tail));
        assert(cs + drained(tail) =~= drained(tail));
    } else {
        let a = live(cs) + tail;
        assert(a[0] == (StreamEvent::Live, cs[0]));
        assert(a.drop_first() =~= live(cs.drop_first()) + tail);
        lemma_forward_live(cs.drop_first(), tail);
        assert(seq![cs[0]] + (cs.drop_first() + forwarded(tail)) =~= cs + forwarded(tail));
        assert(seq![cs[0]] + (cs.drop_first() + drained(tail)) =~= cs + drained(tail));
    }
}

/// The body is the chunks in the order they were sent: a request that
/// arrives after the first `n` chunks were sent gets those replayed, then
/// the later ones live, and when the input ends (with the chunks still
/// queued drained) it has received every chunk exactly once, in order. A
/// request made after all chunks were sent (a reload, which persist mode
/// serves: see [`shutdown_after_response`]) gets all of them.
pub proof fn law_response_in_order(cs: Seq<Seq<u8>>, n: int, queued: int)
    requires
        0 <= n <= queued <= cs.len(),
    ensures
        response(
            pushed_all(cs.take(n)),
            live(cs.subrange(n, queued)) + seq![(StreamEvent::Done, Seq::<u8>::empty())] + live(cs.skip(queued)),
        ) == cs,
        response(pushed_all(cs), seq![(StreamEvent::Done, Seq::<u8>::empty())]) == cs,
{
    lemma_pushed_all(cs.take(n));
    lemma_pushed_all(cs);
    let done = seq![(StreamEvent::Done, Seq::<u8>::empty())];
    let tail = done + live(cs.skip(queued));
    assert(live(cs.subrange(n, queued)) + done + live(cs.skip(queued)) =~= live(cs.subrange(n, queued)) + tail);
    lemma_forward_live(cs.subrange(n, queued), tail);
    assert(tail[0] == (StreamEvent::Done, Seq::<u8>::empty()));
    assert(tail.drop_first() =~= live(cs.skip(queued)) + Seq::<(StreamEvent, Seq<u8>)>::empty());
    lemma_forward_live(cs.skip(queued), Seq::<(StreamEvent, Seq<u8>)>::empty());
    assert(drained(Seq::<(StreamEvent, Seq<u8>)>::empty()) =~= Seq::<Seq<u8>>::empty());
    assert(forwarded(tail) == drained(tail.drop_first()));
    assert(cs.take(n) + (cs.subrange(n, queued) + (cs.skip(queued) + Seq::<Seq<u8>>::empty())) =~= cs);
    assert(done.drop_first() =~= Seq::<(StreamEvent, Seq<u8>)>::empty());
    assert(forwarded(done) == drained(done.drop_first()));
    assert(cs + Seq::<Seq<u8>>::empty() =~= cs);
}

} // verus!
