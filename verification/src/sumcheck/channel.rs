//! The two sides of an interactive protocol.

use vstd::prelude::*;

verus! {

/// One step of the sending side.
#[derive(Clone, Copy, Debug, PartialEq, Eq)]
pub enum ProverEvent<F> {
    /// A scalar went out.
    Sent(F),
    /// A challenge came in.
    Drawn(F),
}

/// The scalars that went out, in order.
pub open spec fn sent_in<F>(events: Seq<ProverEvent<F>>) -> Seq<F>
    decreases events.len(),
{
    if events.len() == 0 {
        Seq::empty()
    } else {
        match events.last() {
            ProverEvent::Sent(x) => sent_in(events.drop_last()).push(x),
            ProverEvent::Drawn(_) => sent_in(events.drop_last()),
        }
    }
}

/// The challenges that came in, in order.
pub open spec fn drawn_in<F>(events: Seq<ProverEvent<F>>) -> Seq<F>
    decreases events.len(),
{
    if events.len() == 0 {
        Seq::empty()
    } else {
        match events.last() {
            ProverEvent::Sent(_) => drawn_in(events.drop_last()),
            ProverEvent::Drawn(x) => drawn_in(events.drop_last()).push(x),
        }
    }
}

/// Scalars going out one after the other.
pub open spec fn sends<F>(elems: Seq<F>) -> Seq<ProverEvent<F>> {
    Seq::new(elems.len(), |i: int| ProverEvent::Sent(elems[i]))
}

/// Challenges coming in one after the other.
pub open spec fn draws<F>(elems: Seq<F>) -> Seq<ProverEvent<F>> {
    Seq::new(elems.len(), |i: int| ProverEvent::Drawn(elems[i]))
}

/// The first `k` rounds: in each, a message of two scalars goes out, and then its challenge comes
/// in.
pub open spec fn round_events<F>(messages: Seq<F>, challenges: Seq<F>, k: int) -> Seq<ProverEvent<F>>
    decreases k,
{
    if k <= 0 {
        Seq::empty()
    } else {
        round_events(messages, challenges, k - 1) + sends(
            messages.subrange(2 * (k - 1), 2 * k),
        ) + draws(seq![challenges[k - 1]])
    }
}

/// Rounds depend only on the messages and challenges they hold.
pub proof fn lemma_rounds_prefix<F>(
    messages: Seq<F>,
    more_messages: Seq<F>,
    challenges: Seq<F>,
    more_challenges: Seq<F>,
    k: int,
)
    requires
        2 * k <= messages.len(),
        k <= challenges.len(),
    ensures
        round_events(messages + more_messages, challenges + more_challenges, k) == round_events(
            messages,
            challenges,
            k,
        ),
    decreases k,
{
    if k > 0 {
        lemma_rounds_prefix(messages, more_messages, challenges, more_challenges, k - 1);
        assert((messages + more_messages).subrange(2 * (k - 1), 2 * k) =~= messages.subrange(
            2 * (k - 1),
            2 * k,
        ));
    }
}

/// Rounds in two stages.
pub proof fn lemma_rounds_join<F>(
    first: Seq<F>,
    second: Seq<F>,
    c: Seq<F>,
    d: Seq<F>,
    k: int,
)
    requires
        first.len() == 2 * c.len(),
        second.len() == 2 * d.len(),
        0 <= k <= d.len(),
    ensures
        round_events(first + second, c + d, c.len() + k) == round_events(first, c, c.len() as int) + round_events(
            second,
            d,
            k,
        ),
    decreases k,
{
    let m = c.len() as int;
    if k == 0 {
        lemma_rounds_prefix(first, second, c, d, m);
        assert(round_events(first, c, m) + Seq::<ProverEvent<F>>::empty() =~= round_events(first, c, m));
    } else {
        lemma_rounds_join(first, second, c, d, k - 1);
        assert(m + k - 1 == m + (k - 1));
        assert((first + second).subrange(2 * (m + k - 1), 2 * (m + k)) =~= second.subrange(
            2 * (k - 1),
            2 * k,
        ));
        assert((c + d)[m + k - 1] == d[k - 1]);
        let last = sends(second.subrange(2 * (k - 1), 2 * k));
        let drawn = draws(seq![d[k - 1]]);
        assert((round_events(first, c, m) + round_events(second, d, k - 1)) + last + drawn =~= round_events(
            first,
            c,
            m,
        ) + (round_events(second, d, k - 1) + last + drawn));
    }
}

/// One more round at the end.
pub proof fn lemma_rounds_push<F>(
    messages: Seq<F>,
    message: Seq<F>,
    challenges: Seq<F>,
    challenge: F,
)
    requires
        messages.len() == 2 * challenges.len(),
        message.len() == 2,
    ensures
        round_events(
            messages + message,
            challenges.push(challenge),
            challenges.len() as int + 1,
        ) == round_events(messages, challenges, challenges.len() as int) + sends(message) + draws(
            seq![challenge],
        ),
{
    let k = challenges.len() as int;
    let c = challenges.push(challenge);
    lemma_rounds_prefix(messages, message, challenges, seq![challenge], k);
    assert(challenges + seq![challenge] =~= c);
    assert((messages + message).subrange(2 * k, 2 * (k + 1)) =~= message);
    assert(c[k] == challenge);
}

/// Appending scalars appends them to what went out, and changes nothing that came in.
pub proof fn lemma_sends_project<F>(events: Seq<ProverEvent<F>>, elems: Seq<F>)
    ensures
        sent_in(events + sends(elems)) == sent_in(events) + elems,
        drawn_in(events + sends(elems)) == drawn_in(events),
    decreases elems.len(),
{
    if elems.len() == 0 {
        assert(events + sends(elems) =~= events);
        assert(sent_in(events) + elems =~= sent_in(events));
    } else {
        let rest = elems.drop_last();
        lemma_sends_project(events, rest);
        let all = events + sends(elems);
        assert(all.drop_last() =~= events + sends(rest));
        assert(all.last() == ProverEvent::Sent(elems.last()));
        assert((sent_in(events) + rest).push(elems.last()) =~= sent_in(events) + elems);
    }
}

/// A channel to the verifier: scalars go out, random challenges come in.
pub trait IPProverChannel<F> {
    /// Everything that went out or came in so far, in order.
    spec fn transcript(&self) -> Seq<ProverEvent<F>>;

    /// Every scalar sent so far.
    spec fn sent(&self) -> Seq<F>;

    /// Every challenge drawn so far.
    spec fn drawn(&self) -> Seq<F>;

    /// Whether `n` more challenges can be drawn.
    spec fn can_draw(&self, n: nat) -> bool;

    /// What was sent and what was drawn is read off the transcript.
    proof fn views_project(&self)
        ensures
            self.sent() == sent_in(self.transcript()),
            self.drawn() == drawn_in(self.transcript()),
    ;

    /// Fewer challenges than available can be drawn too.
    proof fn can_draw_fewer(&self, m: nat, n: nat)
        requires
            self.can_draw(n),
            m <= n,
        ensures
            self.can_draw(m),
    ;

    /// Sends scalars in order.
    fn send_many(&mut self, elems: &[F])
        ensures
            final(self).transcript() == old(self).transcript() + sends(elems@),
            final(self).sent() == old(self).sent() + elems@,
            final(self).drawn() == old(self).drawn(),
            forall|n: nat| #[trigger] old(self).can_draw(n) ==> final(self).can_draw(n),
    ;

    /// Draws one challenge.
    fn sample(&mut self) -> (r: F)
        requires
            old(self).can_draw(1),
        ensures
            final(self).transcript() == old(self).transcript() + draws(seq![r]),
            final(self).drawn() == old(self).drawn().push(r),
            final(self).sent() == old(self).sent(),
            forall|n: nat|
                n >= 1 && #[trigger] old(self).can_draw(n) ==> final(self).can_draw((n - 1) as nat),
    ;
}

/// The scalars that went out, in order.
pub fn messages_in<F: Copy>(events: &Vec<ProverEvent<F>>) -> (r: Vec<F>)
    ensures
        r@ == sent_in(events@),
{
    let mut r: Vec<F> = Vec::new();
    let mut i: usize = 0;
    while i < events.len()
        invariant
            i <= events.len(),
            r@ == sent_in(events@.take(i as int)),
        decreases events.len() - i,
    {
        proof {
            let all = events@.take(i + 1);
            assert(all.drop_last() =~= events@.take(i as int));
            assert(all.last() == events@[i as int]);
        }
        match events[i] {
            ProverEvent::Sent(x) => {
                r.push(x);
            },
            ProverEvent::Drawn(_) => {},
        }
        i = i + 1;
    }
    assert(events@.take(i as int) =~= events@);
    r
}

/// Appends scalars going out.
fn record_sends<F: Copy>(events: &mut Vec<ProverEvent<F>>, elems: &[F])
    ensures
        final(events)@ == old(events)@ + sends(elems@),
{
    let mut i: usize = 0;
    let ghost before = events@;
    assert(before + sends(elems@.take(0)) =~= before);
    while i < elems.len()
        invariant
            i <= elems.len(),
            events@ == before + sends(elems@.take(i as int)),
        decreases elems.len() - i,
    {
        events.push(ProverEvent::Sent(elems[i]));
        assert(events@ =~= before + sends(elems@.take(i + 1)));
        i = i + 1;
    }
    assert(elems@.take(i as int) =~= elems@);
}

/// A channel whose challenges are fixed in advance and whose events are kept.
#[derive(Debug, PartialEq, Eq)]
pub struct RecordingChannel<F> {
    pub events: Vec<ProverEvent<F>>,
    pub challenges: Vec<F>,
    pub position: usize,
}

impl<F: Copy> RecordingChannel<F> {
    /// A channel that hands out the given challenges in order.
    pub fn new(challenges: Vec<F>) -> (r: Self)
        ensures
            r.transcript() == Seq::<ProverEvent<F>>::empty(),
            r.sent() == Seq::<F>::empty(),
            r.drawn() == Seq::<F>::empty(),
            r.challenges@ == challenges@,
            r.position == 0,
            r.can_draw(challenges.len() as nat),
    {
        let r = RecordingChannel { events: Vec::new(), challenges, position: 0 };
        assert(r.events@ =~= Seq::<ProverEvent<F>>::empty());
        r
    }

    /// Every scalar sent so far.
    pub fn messages(&self) -> (r: Vec<F>)
        ensures
            r@ == self.sent(),
    {
        messages_in(&self.events)
    }
}

impl<F: Copy> IPProverChannel<F> for RecordingChannel<F> {
    open spec fn transcript(&self) -> Seq<ProverEvent<F>> {
        self.events@
    }

    open spec fn sent(&self) -> Seq<F> {
        sent_in(self.events@)
    }

    open spec fn drawn(&self) -> Seq<F> {
        drawn_in(self.events@)
    }

    open spec fn can_draw(&self, n: nat) -> bool {
        self.position + n <= self.challenges.len()
    }

    proof fn views_project(&self) {
    }

    proof fn can_draw_fewer(&self, m: nat, n: nat) {
    }

    fn send_many(&mut self, elems: &[F])
        ensures
            final(self).challenges == old(self).challenges,
            final(self).position == old(self).position,
    {
        record_sends(&mut self.events, elems);
        proof {
            lemma_sends_project(old(self).events@, elems@);
        }
    }

    fn sample(&mut self) -> (r: F)
        ensures
            r == old(self).challenges[old(self).position as int],
            final(self).challenges == old(self).challenges,
            final(self).position == old(self).position + 1,
    {
        let r = self.challenges[self.position];
        self.position = self.position + 1;
        self.events.push(ProverEvent::Drawn(r));
        proof {
            assert(self.events@.drop_last() =~= old(self).events@);
            assert(self.events@ =~= old(self).events@ + draws(seq![r]));
        }
        r
    }
}

/// Yields each challenge from what was said before it.
pub trait Challenger<F> {
    /// The challenge that follows some events.
    fn next_challenge(&mut self, events: &Vec<ProverEvent<F>>) -> F;
}

/// A channel whose challenges follow from its events so far.
#[derive(Debug)]
pub struct DerivingChannel<F, C> {
    pub events: Vec<ProverEvent<F>>,
    pub challenger: C,
}

impl<F: Copy, C: Challenger<F>> DerivingChannel<F, C> {
    /// A channel on which nothing was said yet.
    pub fn new(challenger: C) -> (r: Self)
        ensures
            r.transcript() == Seq::<ProverEvent<F>>::empty(),
            r.challenger == challenger,
    {
        let r = DerivingChannel { events: Vec::new(), challenger };
        assert(r.events@ =~= Seq::<ProverEvent<F>>::empty());
        r
    }
}

impl<F: Copy, C: Challenger<F>> IPProverChannel<F> for DerivingChannel<F, C> {
    open spec fn transcript(&self) -> Seq<ProverEvent<F>> {
        self.events@
    }

    open spec fn sent(&self) -> Seq<F> {
        sent_in(self.events@)
    }

    open spec fn drawn(&self) -> Seq<F> {
        drawn_in(self.events@)
    }

    open spec fn can_draw(&self, n: nat) -> bool {
        true
    }

    proof fn views_project(&self) {
    }

    proof fn can_draw_fewer(&self, m: nat, n: nat) {
    }

    fn send_many(&mut self, elems: &[F])
        ensures
            final(self).challenger == old(self).challenger,
    {
        record_sends(&mut self.events, elems);
        proof {
            lemma_sends_project(old(self).events@, elems@);
        }
    }

    fn sample(&mut self) -> (r: F) {
        let r = self.challenger.next_challenge(&self.events);
        self.events.push(ProverEvent::Drawn(r));
        proof {
            assert(self.events@ =~= old(self).events@ + draws(seq![r]));
            assert(self.events@.drop_last() =~= old(self).events@);
        }
        r
    }
}

/// What can go wrong on a channel.
#[derive(Clone, Copy, Debug, PartialEq, Eq, Structural)]
pub enum ChannelError {
    /// A message was expected and none is left.
    ProofEmpty,
    /// A value asserted to be zero is not.
    InvalidAssert,
}

/// One step of the receiving side.
#[derive(Clone, Copy, Debug, PartialEq, Eq)]
pub enum VerifierEvent<F> {
    /// A scalar came in.
    Received(F),
    /// A challenge went out.
    Challenged(F),
}

/// The challenges that went out, in order.
pub open spec fn challenged_in<F>(events: Seq<VerifierEvent<F>>) -> Seq<F>
    decreases events.len(),
{
    if events.len() == 0 {
        Seq::empty()
    } else {
        match events.last() {
            VerifierEvent::Received(_) => challenged_in(events.drop_last()),
            VerifierEvent::Challenged(x) => challenged_in(events.drop_last()).push(x),
        }
    }
}

/// Scalars coming in one after the other.
pub open spec fn receives<F>(elems: Seq<F>) -> Seq<VerifierEvent<F>> {
    Seq::new(elems.len(), |i: int| VerifierEvent::Received(elems[i]))
}

/// Challenges going out one after the other.
pub open spec fn challenges_out<F>(elems: Seq<F>) -> Seq<VerifierEvent<F>> {
    Seq::new(elems.len(), |i: int| VerifierEvent::Challenged(elems[i]))
}

/// Scalars coming in change nothing that went out.
pub proof fn lemma_receives_project<F>(events: Seq<VerifierEvent<F>>, elems: Seq<F>)
    ensures
        challenged_in(events + receives(elems)) == challenged_in(events),
    decreases elems.len(),
{
    if elems.len() == 0 {
        assert(events + receives(elems) =~= events);
    } else {
        lemma_receives_project(events, elems.drop_last());
        let all = events + receives(elems);
        assert(all.drop_last() =~= events + receives(elems.drop_last()));
        assert(all.last() == VerifierEvent::Received(elems.last()));
    }
}

/// The verifier's side: scalars come in, random challenges go out.
pub trait IPVerifierChannel<F> {
    /// Everything that came in or went out so far, in order.
    spec fn transcript(&self) -> Seq<VerifierEvent<F>>;

    /// The scalars still to come.
    spec fn incoming(&self) -> Seq<F>;

    /// Every challenge drawn so far.
    spec fn challenged(&self) -> Seq<F>;

    /// The challenges that are known ahead, from the first one on: none, where nothing is.
    spec fn foreseen(&self) -> Seq<F>;

    /// Whether `n` more challenges can be drawn.
    spec fn can_challenge(&self, n: nat) -> bool;

    /// The challenges are read off the transcript.
    proof fn views_project(&self)
        ensures
            self.challenged() == challenged_in(self.transcript()),
    ;

    /// Fewer challenges than available can be drawn too.
    proof fn can_challenge_fewer(&self, m: nat, n: nat)
        requires
            self.can_challenge(n),
            m <= n,
        ensures
            self.can_challenge(m),
    ;

    /// Receives the next scalars, all or none.
    fn recv_many(&mut self, n: usize) -> (r: Result<Vec<F>, ChannelError>)
        ensures
            n <= old(self).incoming().len() ==> (r matches Ok(v) && v@ == old(self).incoming().take(
                n as int,
            ) && final(self).incoming() == old(self).incoming().skip(n as int)
                && final(self).transcript() == old(self).transcript() + receives(v@)),
            n > old(self).incoming().len() ==> r == Err::<Vec<F>, _>(ChannelError::ProofEmpty)
                && final(self).incoming() == old(self).incoming() && final(self).transcript()
                == old(self).transcript(),
            final(self).challenged() == old(self).challenged(),
            final(self).foreseen() == old(self).foreseen(),
            forall|m: nat| #[trigger] old(self).can_challenge(m) ==> final(self).can_challenge(m),
    ;

    /// Draws one challenge.
    fn challenge(&mut self) -> (r: F)
        requires
            old(self).can_challenge(1),
        ensures
            final(self).transcript() == old(self).transcript() + challenges_out(seq![r]),
            final(self).challenged() == old(self).challenged().push(r),
            final(self).foreseen() == old(self).foreseen(),
            old(self).challenged().len() < old(self).foreseen().len() ==> r == old(self).foreseen()[old(self).challenged().len() as int],
            final(self).incoming() == old(self).incoming(),
            forall|n: nat|
                n >= 1 && #[trigger] old(self).can_challenge(n) ==> final(self).can_challenge(
                    (n - 1) as nat,
                ),
    ;
}

/// The challenges drawn on the way from one state of a channel to another are the ones foreseen.
pub open spec fn as_foreseen<F, C: IPVerifierChannel<F>>(before: &C, after: &C) -> bool {
    &&& after.foreseen() == before.foreseen()
    &&& forall|k: int|
        before.challenged().len() <= k < after.challenged().len() && k < before.foreseen().len()
            ==> #[trigger] after.challenged()[k] == before.foreseen()[k]
}

/// A channel whose messages and challenges are both fixed in advance.
#[derive(Debug, PartialEq, Eq)]
pub struct ReplayChannel<F> {
    pub messages: Vec<F>,
    pub n_read: usize,
    pub challenges: Vec<F>,
    pub n_drawn: usize,
    pub events: Vec<VerifierEvent<F>>,
}

impl<F: Copy> ReplayChannel<F> {
    /// Positions lie within the lists.
    pub open spec fn wf(&self) -> bool {
        self.n_read <= self.messages.len() && self.n_drawn <= self.challenges.len()
    }

    /// A channel that hands out the given messages and challenges in order.
    pub fn new(messages: Vec<F>, challenges: Vec<F>) -> (r: Self)
        ensures
            r.wf(),
            r.transcript() == Seq::<VerifierEvent<F>>::empty(),
            r.incoming() == messages@,
            r.challenged() == Seq::<F>::empty(),
            r.challenges@ == challenges@,
            r.foreseen() == challenges@,
            r.n_drawn == 0,
            r.can_challenge(challenges.len() as nat),
    {
        let r = ReplayChannel { messages, n_read: 0, challenges, n_drawn: 0, events: Vec::new() };
        assert(r.incoming() =~= messages@);
        assert(r.events@ =~= Seq::<VerifierEvent<F>>::empty());
        r
    }
}

impl<F: Copy> IPVerifierChannel<F> for ReplayChannel<F> {
    open spec fn transcript(&self) -> Seq<VerifierEvent<F>> {
        self.events@
    }

    open spec fn incoming(&self) -> Seq<F> {
        if self.n_read <= self.messages.len() {
            self.messages@.skip(self.n_read as int)
        } else {
            Seq::empty()
        }
    }

    open spec fn challenged(&self) -> Seq<F> {
        challenged_in(self.events@)
    }

    open spec fn foreseen(&self) -> Seq<F> {
        if self.n_drawn == challenged_in(self.events@).len() {
            self.challenges@
        } else {
            Seq::empty()
        }
    }

    open spec fn can_challenge(&self, n: nat) -> bool {
        self.n_drawn + n <= self.challenges.len()
    }

    proof fn views_project(&self) {
    }

    proof fn can_challenge_fewer(&self, m: nat, n: nat) {
    }

    fn recv_many(&mut self, n: usize) -> (r: Result<Vec<F>, ChannelError>)
        ensures
            final(self).challenges == old(self).challenges,
            final(self).n_drawn == old(self).n_drawn,
    {
        let left: usize = if self.n_read <= self.messages.len() {
            self.messages.len() - self.n_read
        } else {
            0
        };
        if n > left {
            return Err(ChannelError::ProofEmpty);
        }
        let ghost start = *self;
        let ghost coming = self.incoming();
        let mut r: Vec<F> = Vec::new();
        let mut i: usize = 0;
        assert(start.events@ + receives(coming.take(0)) =~= start.events@);
        while i < n
            invariant
                i <= n,
                n <= left,
                start.n_read + left <= start.messages.len() || left == 0,
                coming == start.incoming(),
                coming.len() == left,
                self.messages == start.messages,
                self.n_read == start.n_read,
                self.challenges == start.challenges,
                self.n_drawn == start.n_drawn,
                r@ == coming.take(i as int),
                self.events@ == start.events@ + receives(coming.take(i as int)),
            decreases n - i,
        {
            let x = self.messages[self.n_read + i];
            r.push(x);
            self.events.push(VerifierEvent::Received(x));
            proof {
                assert(x == coming[i as int]);
                assert(r@ =~= coming.take(i + 1));
                assert(self.events@ =~= start.events@ + receives(coming.take(i + 1)));
            }
            i = i + 1;
        }
        if n > 0 {
            self.n_read = self.n_read + n;
        }
        proof {
            assert(self.incoming() =~= coming.skip(n as int));
            lemma_receives_project(start.events@, coming.take(n as int));
        }
        Ok(r)
    }

    fn challenge(&mut self) -> (r: F)
        ensures
            r == old(self).challenges[old(self).n_drawn as int],
            final(self).challenges == old(self).challenges,
            final(self).n_drawn == old(self).n_drawn + 1,
    {
        let r = self.challenges[self.n_drawn];
        self.n_drawn = self.n_drawn + 1;
        self.events.push(VerifierEvent::Challenged(r));
        proof {
            assert(self.events@.drop_last() =~= old(self).events@);
            assert(self.events@ =~= old(self).events@ + challenges_out(seq![r]));
        }
        r
    }
}

} // verus!
