//! The scanline scheduler: which row a worker renders next, and when a
//! worker of a superseded render has to stop.
//!
//! The scheduler is a plain state machine. Whoever shares it between worker
//! threads guards it with a lock and calls `claim` once per row; every
//! interleaving of the workers is then one sequence of calls.

use vstd::prelude::*;

verus! {

/// The answer to a worker that asks for work.
#[derive(Clone, Copy, Debug, PartialEq, Eq, Structural)]
pub enum Claim {
    /// Render row `row`; its chunk starts at pixel `from` of the frame.
    Row { row: usize, from: usize },
    /// The worker's render is the live one and every row has been handed out.
    Complete,
    /// A newer render has begun: stop without sending anything more.
    Superseded,
}

/// The state of the scheduler as contracts see it.
pub struct Render {
    /// Number of the live render; 0 before the first request.
    pub generation: int,
    /// Pixels per row of the live render.
    pub width: int,
    /// Rows not yet handed out; the last one goes out first.
    pub pending: Seq<usize>,
}

/// A call made on the scheduler.
pub enum Event {
    Begin { width: nat, height: nat },
    Claim { token: int },
}

impl Render {
    /// The pending rows are `0, 1, .., n - 1` for some `n`, and the frame's
    /// pixel offsets fit a machine word.
    pub open spec fn valid(self) -> bool {
        &&& 0 <= self.generation <= u64::MAX
        &&& 0 <= self.width
        &&& self.pending.len() * self.width <= usize::MAX
        &&& self.pending.len() <= usize::MAX
        &&& forall|i: int| 0 <= i < self.pending.len() ==> #[trigger] self.pending[i] == i
    }

    /// The state after a request for a frame of `width` by `height` pixels.
    pub open spec fn begin(self, width: nat, height: nat) -> Render {
        Render {
            generation: self.generation + 1,
            width: width as int,
            pending: Seq::new(height, |i: int| i as usize),
        }
    }

    /// The state after a worker of render `token` asked for work, and the
    /// answer it got.
    pub open spec fn claim(self, token: int) -> (Render, Claim) {
        if token != self.generation {
            (self, Claim::Superseded)
        } else if self.pending.len() == 0 {
            (self, Claim::Complete)
        } else {
            let row = self.pending.last();
            (
                Render { pending: self.pending.drop_last(), ..self },
                Claim::Row { row, from: (row * self.width) as usize },
            )
        }
    }

    /// The answers to `count` claims in a row by workers of render `token`.
    pub open spec fn answers(self, token: int, count: nat) -> Seq<Claim>
        decreases count,
    {
        if count == 0 {
            Seq::empty()
        } else {
            let (next, answer) = self.claim(token);
            seq![answer] + next.answers(token, (count - 1) as nat)
        }
    }

    /// The state after the calls `events`, made in that order.
    pub open spec fn run(self, events: Seq<Event>) -> Render
        decreases events.len(),
    {
        if events.len() == 0 {
            self
        } else {
            let before = self.run(events.drop_last());
            match events.last() {
                Event::Begin { width, height } => before.begin(width, height),
                Event::Claim { token } => before.claim(token).0,
            }
        }
    }
}

/// Hands out the rows of the live render, one per claim.
pub struct Scheduler {
    generation: u64,
    width: usize,
    pending: Vec<usize>,
}

impl View for Scheduler {
    type V = Render;

    closed spec fn view(&self) -> Render {
        Render {
            generation: self.generation as int,
            width: self.width as int,
            pending: self.pending@,
        }
    }
}

impl Scheduler {
    #[verifier::type_invariant]
    spec fn well_formed(self) -> bool {
        self@.valid()
    }

    /// An idle scheduler: no render has been requested yet.
    pub fn new() -> (scheduler: Scheduler)
        ensures
            scheduler@ == (Render { generation: 0, width: 0, pending: Seq::empty() }),
    {
        Scheduler { generation: 0, width: 0, pending: Vec::new() }
    }

    /// Number of the live render.
    pub fn generation(&self) -> (generation: u64)
        ensures
            generation == self@.generation,
    {
        self.generation
    }

    /// Number of rows not yet handed out.
    pub fn remaining(&self) -> (rows: usize)
        ensures
            rows == self@.pending.len(),
    {
        self.pending.len()
    }

    /// Whether render `token` is still the live one.
    pub fn is_current(&self, token: u64) -> (current: bool)
        ensures
            current == (token == self@.generation),
    {
        token == self.generation
    }

    /// Starts a render of `width` by `height` pixels and returns its number.
    /// Every earlier render is superseded from here on.
    pub fn begin(&mut self, width: u32, height: u32) -> (token: u64)
        requires
            old(self)@.generation < u64::MAX,
            width * height <= usize::MAX,
        ensures
            final(self)@ == old(self)@.begin(width as nat, height as nat),
            token == old(self)@.generation + 1,
            final(self)@.valid(),
    {
        proof {
            use_type_invariant(&*self);
        }
        let mut pending: Vec<usize> = Vec::new();
        let mut row: u32 = 0;
        while row < height
            invariant
                row <= height,
                pending@ == Seq::new(row as nat, |i: int| i as usize),
            decreases height - row,
        {
            pending.push(row as usize);
            row += 1;
            assert(pending@ == Seq::new(row as nat, |i: int| i as usize));
        }
        let token = self.generation + 1;
        proof {
            assert(pending@.len() * width == width * height) by (nonlinear_arith)
                requires
                    pending@.len() == height,
            ;
        }
        *self = Scheduler { generation: token, width: width as usize, pending };
        token
    }

    /// Answers a worker of render `token`: the next row, or that none is
    /// left, or that its render has been superseded.
    pub fn claim(&mut self, token: u64) -> (answer: Claim)
        ensures
            (final(self)@, answer) == old(self)@.claim(token as int),
            final(self)@.valid(),
    {
        proof {
            use_type_invariant(&*self);
        }
        if token != self.generation {
            return Claim::Superseded;
        }
        let ghost before = self.pending@;
        let mut pending: Vec<usize> = Vec::new();
        core::mem::swap(&mut self.pending, &mut pending);
        let popped = pending.pop();
        proof {
            let n = before.len() as int;
            if n > 0 {
                assert(pending@ == before.drop_last());
                assert((n - 1) * self.width <= n * self.width) by (nonlinear_arith)
                    requires
                        self.width >= 0,
                ;
            }
        }
        core::mem::swap(&mut self.pending, &mut pending);
        match popped {
            None => Claim::Complete,
            Some(row) => Claim::Row { row, from: row * self.width },
        }
    }
}

/// The first `count` answers to the workers of the live render hand out the
/// pending rows from the last to the first, and answer `Complete` from then
/// on.
proof fn lemma_answers(render: Render, count: nat)
    requires
        render.valid(),
    ensures
        render.answers(render.generation, count).len() == count,
        forall|k: int|
            0 <= k < count ==> #[trigger] render.answers(render.generation, count)[k] == (if k
                < render.pending.len() {
                Claim::Row {
                    row: (render.pending.len() - 1 - k) as usize,
                    from: ((render.pending.len() - 1 - k) * render.width) as usize,
                }
            } else {
                Claim::Complete
            }),
    decreases count,
{
    if count > 0 {
        let (next, answer) = render.claim(render.generation);
        let n = render.pending.len() as int;
        if n > 0 {
            assert((n - 1) * render.width <= n * render.width) by (nonlinear_arith)
                requires
                    render.width >= 0,
            ;
        }
        assert(next.valid());
        lemma_answers(next, (count - 1) as nat);
        let rest = next.answers(next.generation, (count - 1) as nat);
        let all = render.answers(render.generation, count);
        assert(all == seq![answer] + rest);
        assert forall|k: int| 0 <= k < count implies #[trigger] all[k] == (if k < n {
            Claim::Row { row: (n - 1 - k) as usize, from: ((n - 1 - k) * render.width) as usize }
        } else {
            Claim::Complete
        }) by {
            if k > 0 {
                assert(all[k] == rest[k - 1]);
            }
        }
    }
}

/// A render of `height` rows that is never superseded hands out every row
/// exactly once, whatever the number of workers and however their claims
/// interleave: the first `height` answers are the rows `height - 1` down to
/// 0, each with the offset of its first pixel, and the next answer is
/// `Complete`.
pub proof fn lemma_every_row_claimed_once(before: Render, width: nat, height: nat)
    requires
        before.valid(),
        before.generation < u64::MAX,
        width * height <= usize::MAX,
        height <= usize::MAX,
    ensures
        ({
            let live = before.begin(width, height);
            let answers = live.answers(live.generation, height + 1);
            &&& answers.len() == height + 1
            &&& answers[height as int] == Claim::Complete
            &&& forall|row: int|
                0 <= row < height ==> #[trigger] answers[height - 1 - row] == (Claim::Row {
                    row: row as usize,
                    from: (row * width) as usize,
                })
            &&& forall|j: int, k: int|
                0 <= j < k <= height ==> #[trigger] answers[j] != #[trigger] answers[k]
        }),
{
    let live = before.begin(width, height);
    assert(live.pending.len() * live.width == width * height) by (nonlinear_arith)
        requires
            live.pending.len() == height,
            live.width == width,
    ;
    assert(live.valid());
    lemma_answers(live, height + 1);
    let answers = live.answers(live.generation, height + 1);
    assert forall|row: int| 0 <= row < height implies #[trigger] answers[height - 1 - row] == (
    Claim::Row { row: row as usize, from: (row * width) as usize }) by {
        let k = height - 1 - row;
        assert(answers[k] == Claim::Row {
            row: (height - 1 - k) as usize,
            from: ((height - 1 - k) * live.width) as usize,
        });
    }
    assert forall|j: int, k: int| 0 <= j < k <= height implies #[trigger] answers[j]
        != #[trigger] answers[k] by {
        assert(answers[j] == Claim::Row {
            row: (height - 1 - j) as usize,
            from: ((height - 1 - j) * live.width) as usize,
        });
    }
}

/// No call ever lowers the number of the live render.
pub proof fn lemma_generation_never_decreases(render: Render, events: Seq<Event>)
    ensures
        render.run(events).generation >= render.generation,
    decreases events.len(),
{
    if events.len() > 0 {
        lemma_generation_never_decreases(render, events.drop_last());
    }
}

/// A worker whose render is not the live one is told to stop, and its claim
/// changes nothing: the rows of the live render stay with its own workers.
pub proof fn lemma_stale_claim_is_refused(render: Render, token: int)
    requires
        token != render.generation,
    ensures
        render.claim(token) == (render, Claim::Superseded),
{
}

/// Once a new render has begun, the workers of every earlier render are
/// refused for good: whatever calls follow, a claim with an earlier number is
/// answered `Superseded` and leaves the state as it was.
pub proof fn lemma_superseded_for_good(
    render: Render,
    width: nat,
    height: nat,
    events: Seq<Event>,
    token: int,
)
    requires
        token <= render.generation,
    ensures
        ({
            let later = render.begin(width, height).run(events);
            later.claim(token) == (later, Claim::Superseded)
        }),
{
    lemma_generation_never_decreases(render.begin(width, height), events);
}

} // verus!
