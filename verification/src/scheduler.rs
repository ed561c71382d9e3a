//! Continuous batching: iteration-level scheduling.
//!
//! Jobs wait in a FIFO and are decoded in an active set of at most `max_batch`. A tick admits from
//! the FIFO and then runs one model iteration for every active job. [`Scheduler::step`] makes the
//! decisions of a tick one at a time: the caller runs the model and the channels, and reports back.

use vstd::prelude::*;
use std::collections::VecDeque;

use crate::lm::{LanguageModel, Lcg};

verus! {

/// One piece of generated text for the client of a job.
#[derive(Debug, Clone)]
pub struct TokenEvent {
    pub token: String,
    pub done: bool,
}

/// A generation in progress. `state` is what the caller keeps with it.
pub struct Job<S> {
    pub ids: Vec<usize>,
    pub max_new: usize,
    pub n_new: usize,
    pub rng: Lcg,
    pub prefilled: bool,
    pub state: S,
}

pub struct Scheduler<S> {
    pub waiting: VecDeque<Job<S>>,
    pub active: Vec<Job<S>>,
    pub max_batch: usize,
    /// The active job that the tick has come to.
    pub cursor: usize,
}

/// What the caller reports to a scheduler.
pub enum StepEvent {
    /// A tick begins.
    Begin,
    /// The model chose this token for the current job.
    Sampled(usize),
    /// The last action is carried out.
    Next,
}

/// What a scheduler asks of its caller.
pub enum StepAction<S> {
    /// There is no job: no tick takes place.
    Idle,
    /// Choose a token for this active job, after running the model over its prompt if `prefill`.
    Decode { index: usize, prefill: bool },
    /// Run the model over the newest token of this active job and send it the event.
    Deliver { index: usize, event: TokenEvent },
    /// The job has left: send it the event.
    Retire { job: Job<S>, event: TokenEvent },
    /// The tick is over.
    Done,
}

pub struct JobView<S> {
    pub ids: Seq<usize>,
    pub max_new: nat,
    pub n_new: nat,
    pub rng: u64,
    pub prefilled: bool,
    pub state: S,
}

pub struct EventView {
    pub token: Seq<char>,
    pub done: bool,
}

pub enum ActionView<S> {
    Idle,
    Decode { index: nat, prefill: bool },
    Deliver { index: nat, event: EventView },
    Retire { job: JobView<S>, event: EventView },
    Done,
}

pub struct SchedulerView<S> {
    pub waiting: Seq<JobView<S>>,
    pub active: Seq<JobView<S>>,
    pub max_batch: nat,
    pub cursor: nat,
}

impl View for TokenEvent {
    type V = EventView;

    open spec fn view(&self) -> EventView {
        EventView { token: self.token@, done: self.done }
    }
}

impl<S> View for Job<S> {
    type V = JobView<S>;

    open spec fn view(&self) -> JobView<S> {
        JobView {
            ids: self.ids@,
            max_new: self.max_new as nat,
            n_new: self.n_new as nat,
            rng: self.rng@,
            prefilled: self.prefilled,
            state: self.state,
        }
    }
}

impl<S> View for StepAction<S> {
    type V = ActionView<S>;

    open spec fn view(&self) -> ActionView<S> {
        match self {
            StepAction::Idle => ActionView::Idle,
            StepAction::Decode { index, prefill } => ActionView::Decode {
                index: *index as nat,
                prefill: *prefill,
            },
            StepAction::Deliver { index, event } => ActionView::Deliver {
                index: *index as nat,
                event: event@,
            },
            StepAction::Retire { job, event } => ActionView::Retire { job: job@, event: event@ },
            StepAction::Done => ActionView::Done,
        }
    }
}

/// The views of jobs.
pub open spec fn job_views<S>(jobs: Seq<Job<S>>) -> Seq<JobView<S>> {
    Seq::new(jobs.len(), |i: int| jobs[i]@)
}

impl<S> View for Scheduler<S> {
    type V = SchedulerView<S>;

    open spec fn view(&self) -> SchedulerView<S> {
        SchedulerView {
            waiting: job_views(self.waiting@),
            active: job_views(self.active@),
            max_batch: self.max_batch as nat,
            cursor: self.cursor as nat,
        }
    }
}

impl<S> JobView<S> {
    /// The job with one more token.
    pub open spec fn extended(self, id: usize) -> JobView<S> {
        JobView { ids: self.ids.push(id), n_new: self.n_new + 1, prefilled: true, ..self }
    }

    /// Has the job all the tokens that it asked for?
    pub open spec fn finished(self) -> bool {
        self.n_new >= self.max_new
    }
}

/// The event that closes a job that asked for no token.
pub open spec fn empty_event() -> EventView {
    EventView { token: seq![], done: true }
}

/// The items without item `i`, whose place the last one takes.
pub open spec fn swap_removed<T>(items: Seq<T>, i: int) -> Seq<T> {
    items.update(i, items.last()).drop_last()
}

impl<S> SchedulerView<S> {
    /// How many jobs a tick admits.
    pub open spec fn room(self) -> nat {
        if self.active.len() >= self.max_batch {
            0
        } else if self.waiting.len() <= self.max_batch - self.active.len() {
            self.waiting.len()
        } else {
            (self.max_batch - self.active.len()) as nat
        }
    }

    /// The first jobs of the FIFO have joined the active set, as many as there is room for.
    pub open spec fn admitted(self) -> SchedulerView<S> {
        SchedulerView {
            waiting: self.waiting.skip(self.room() as int),
            active: self.active + self.waiting.take(self.room() as int),
            ..self
        }
    }

    /// The current job has left.
    pub open spec fn without_current(self) -> SchedulerView<S> {
        SchedulerView { active: swap_removed(self.active, self.cursor as int), ..self }
    }

    /// The tick turns to the job at the cursor.
    pub open spec fn visit(self) -> (SchedulerView<S>, ActionView<S>) {
        if self.cursor >= self.active.len() {
            (self, ActionView::Done)
        } else {
            let job = self.active[self.cursor as int];
            if job.max_new == 0 {
                (self.without_current(), ActionView::Retire { job, event: empty_event() })
            } else {
                (self, ActionView::Decode { index: self.cursor, prefill: !job.prefilled })
            }
        }
    }

    /// The model has chosen token `id`, which reads as `byte`, for the current job.
    pub open spec fn sampled(self, id: usize, byte: u8) -> (SchedulerView<S>, ActionView<S>) {
        let job = self.active[self.cursor as int].extended(id);
        let event = EventView { token: seq![byte as char], done: job.finished() };
        if job.finished() {
            (self.without_current(), ActionView::Retire { job, event })
        } else {
            (
                SchedulerView {
                    active: self.active.update(self.cursor as int, job),
                    cursor: self.cursor + 1,
                    ..self
                },
                ActionView::Deliver { index: self.cursor, event },
            )
        }
    }

    /// What an event does to a scheduler, and what it then asks for.
    pub open spec fn step(self, vocab: Seq<u8>, event: StepEvent) -> (
        SchedulerView<S>,
        ActionView<S>,
    ) {
        match event {
            StepEvent::Begin => {
                let ready = SchedulerView { cursor: 0, ..self.admitted() };
                if ready.active.len() == 0 {
                    (ready, ActionView::Idle)
                } else {
                    ready.visit()
                }
            },
            StepEvent::Sampled(id) => self.sampled(id, crate::lm::decoded(vocab, id)),
            StepEvent::Next => self.visit(),
        }
    }

    /// May a token be reported now? A job must be current, and its count of tokens not exhausted.
    pub open spec fn takes_token(self) -> bool {
        self.cursor < self.active.len() && self.active[self.cursor as int].n_new < usize::MAX
    }
}

impl<S> Scheduler<S> {
    /// An empty scheduler with room for `max_batch` active jobs, and for one at least.
    pub fn new(max_batch: usize) -> (r: Self)
        ensures
            r@.waiting == Seq::<JobView<S>>::empty(),
            r@.active == Seq::<JobView<S>>::empty(),
            r@.max_batch == (if max_batch == 0 {
                1
            } else {
                max_batch as nat
            }),
            r@.cursor == 0,
    {
        let r = Self {
            waiting: VecDeque::new(),
            active: Vec::new(),
            max_batch: if max_batch == 0 {
                1
            } else {
                max_batch
            },
            cursor: 0,
        };
        assert(r@.waiting =~= Seq::<JobView<S>>::empty());
        assert(r@.active =~= Seq::<JobView<S>>::empty());
        r
    }

    /// Puts a job at the end of the FIFO.
    pub fn enqueue(&mut self, job: Job<S>)
        ensures
            final(self)@ == (SchedulerView { waiting: old(self)@.waiting.push(job@), ..old(self)@ }),
    {
        self.waiting.push_back(job);
        assert(self@.waiting =~= old(self)@.waiting.push(job@));
    }

    /// Is there a job, waiting or active?
    pub fn has_work(&self) -> (r: bool)
        ensures
            r == (self@.waiting.len() > 0 || self@.active.len() > 0),
    {
        self.waiting.len() > 0 || self.active.len() > 0
    }

    /// Moves jobs from the FIFO to the active set while there is room.
    fn fill(&mut self)
        ensures
            final(self)@ == old(self)@.admitted(),
    {
        let ghost room = self@.room();
        let ghost mut n: nat = 0;
        proof {
            assert(self@.waiting.skip(0) =~= self@.waiting);
            assert(self@.active + self@.waiting.take(0) =~= self@.active);
        }
        while self.active.len() < self.max_batch && self.waiting.len() > 0
            invariant
                room == old(self)@.room(),
                n <= room,
                self.max_batch == old(self).max_batch,
                self.cursor == old(self).cursor,
                self@.waiting == old(self)@.waiting.skip(n as int),
                self@.active == old(self)@.active + old(self)@.waiting.take(n as int),
            decreases self.waiting@.len(),
        {
            let ghost before = self@;
            if let Some(job) = self.waiting.pop_front() {
                self.active.push(job);
                proof {
                    assert(job@ == before.waiting[0]);
                    assert(self@.waiting =~= before.waiting.skip(1));
                    assert(self@.active =~= before.active.push(job@));
                    n = n + 1;
                    assert(self@.waiting =~= old(self)@.waiting.skip(n as int));
                    assert(self@.active =~= old(self)@.active + old(self)@.waiting.take(n as int));
                }
            }
        }
    }

    /// Takes the current job out; the last active job takes its place.
    fn remove_current(&mut self) -> (job: Job<S>)
        requires
            old(self)@.cursor < old(self)@.active.len(),
        ensures
            final(self)@ == old(self)@.without_current(),
            job@ == old(self)@.active[old(self)@.cursor as int],
    {
        let job = self.active.swap_remove(self.cursor);
        assert(self@.active =~= swap_removed(old(self)@.active, old(self)@.cursor as int));
        job
    }

    /// Turns to the job at the cursor.
    fn visit(&mut self) -> (action: StepAction<S>)
        ensures
            (final(self)@, action@) == old(self)@.visit(),
    {
        if self.cursor >= self.active.len() {
            return StepAction::Done;
        }
        let index = self.cursor;
        assert(self@.active[index as int] == self.active@[index as int]@);
        if self.active[index].max_new == 0 {
            let job = self.remove_current();
            let event = TokenEvent { token: String::new(), done: true };
            assert(event@ == empty_event());
            StepAction::Retire { job, event }
        } else {
            StepAction::Decode { index, prefill: !self.active[index].prefilled }
        }
    }

    /// Takes in one event of a tick and says what is to be done next. A tick starts with
    /// [`StepEvent::Begin`]; [`StepEvent::Sampled`] answers [`StepAction::Decode`], and
    /// [`StepEvent::Next`] answers [`StepAction::Deliver`] and [`StepAction::Retire`].
    pub fn step(&mut self, lm: &LanguageModel, event: StepEvent) -> (action: StepAction<S>)
        requires
            event is Sampled ==> old(self)@.takes_token() && lm.vocab@.len() > 0,
        ensures
            (final(self)@, action@) == old(self)@.step(lm.vocab@, event),
    {
        match event {
            StepEvent::Begin => {
                self.fill();
                self.cursor = 0;
                if self.active.len() == 0 {
                    StepAction::Idle
                } else {
                    self.visit()
                }
            },
            StepEvent::Sampled(id) => {
                let index = self.cursor;
                assert(self@.active[index as int] == self.active@[index as int]@);
                let byte = lm.decode_byte(id);
                let mut token = String::new();
                token.push(byte as char);
                assert(token@ =~= seq![byte as char]);
                let ghost before = self@;
                let ghost extended = self@.active[index as int].extended(id);
                let job = &mut self.active[index];
                job.ids.push(id);
                job.n_new = job.n_new + 1;
                job.prefilled = true;
                let done = job.n_new >= job.max_new;
                proof {
                    assert(self@.active =~= before.active.update(index as int, extended));
                }
                let event = TokenEvent { token, done };
                if done {
                    let job = self.remove_current();
                    assert(self@.active =~= swap_removed(before.active, index as int));
                    StepAction::Retire { job, event }
                } else {
                    assert(index < self.active.len());
                    self.cursor = index + 1;
                    StepAction::Deliver { index, event }
                }
            },
            StepEvent::Next => self.visit(),
        }
    }
}

/// How the caller of a scheduler runs the model for a job: what it leaves in the job, and the token
/// that it reports; and what it leaves in a job whose event it has delivered.
#[verifier::reject_recursive_types(S)]
pub struct Caller<S> {
    pub work: spec_fn(JobView<S>) -> (u64, S, usize),
    pub settle: spec_fn(JobView<S>) -> S,
}

impl<S> Caller<S> {
    /// The job after one model iteration.
    pub open spec fn iterated(self, job: JobView<S>) -> JobView<S> {
        let (rng, state, id) = (self.work)(job);
        JobView { rng, state, ..job }.extended(id)
    }

    /// The job that goes on after that iteration.
    pub open spec fn kept(self, job: JobView<S>) -> JobView<S> {
        let next = self.iterated(job);
        JobView { state: (self.settle)(next), ..next }
    }

    /// The event that a tick owes a job.
    pub open spec fn event(self, vocab: Seq<u8>, job: JobView<S>) -> EventView {
        if job.max_new == 0 {
            empty_event()
        } else {
            let id = (self.work)(job).2;
            EventView {
                token: seq![crate::lm::decoded(vocab, id) as char],
                done: self.iterated(job).finished(),
            }
        }
    }
}

/// A job that a tick has come to, as it was, and the event that it got.
pub struct Served<S> {
    pub job: JobView<S>,
    pub event: EventView,
}

/// The rest of a tick from the cursor on: step by step, each action carried out and reported.
pub open spec fn serve<S>(v: SchedulerView<S>, vocab: Seq<u8>, c: Caller<S>) -> (
    SchedulerView<S>,
    Seq<Served<S>>,
)
    decreases v.active.len() - v.cursor,
{
    if v.cursor >= v.active.len() {
        (v, seq![])
    } else {
        let at = v.cursor as int;
        let job = v.active[at];
        let (seen, asked) = v.step(vocab, StepEvent::Next);
        match asked {
            ActionView::Retire { job: left, event } => {
                let (end, rest) = serve(seen, vocab, c);
                (end, seq![Served { job, event }] + rest)
            },
            _ => {
                let (rng, state, id) = (c.work)(job);
                let run = SchedulerView {
                    active: seen.active.update(at, JobView { rng, state, ..job }),
                    ..seen
                };
                let (told, answer) = run.step(vocab, StepEvent::Sampled(id));
                match answer {
                    ActionView::Retire { job: left, event } => {
                        let (end, rest) = serve(told, vocab, c);
                        (end, seq![Served { job, event }] + rest)
                    },
                    ActionView::Deliver { index, event } => {
                        let next = told.active[at];
                        let sent = SchedulerView {
                            active: told.active.update(
                                at,
                                JobView { state: (c.settle)(next), ..next },
                            ),
                            ..told
                        };
                        let (end, rest) = serve(sent, vocab, c);
                        (end, seq![Served { job, event }] + rest)
                    },
                    _ => (v, seq![]),
                }
            },
        }
    }
}

/// The jobs that were served.
pub open spec fn served_jobs<S>(out: Seq<Served<S>>) -> Seq<JobView<S>> {
    out.map_values(|e: Served<S>| e.job)
}

/// What becomes of the jobs that were not told that they are done.
pub open spec fn kept_jobs<S>(out: Seq<Served<S>>, c: Caller<S>) -> Seq<JobView<S>>
    decreases out.len(),
{
    if out.len() == 0 {
        seq![]
    } else {
        let rest = kept_jobs(out.drop_first(), c);
        if out[0].event.done {
            rest
        } else {
            seq![c.kept(out[0].job)] + rest
        }
    }
}

/// Swapping an item out keeps what stands before it and, but for the item, what stands behind it.
proof fn lemma_swap_removed<T>(items: Seq<T>, i: int)
    requires
        0 <= i < items.len(),
    ensures
        swap_removed(items, i).len() == items.len() - 1,
        swap_removed(items, i).take(i) == items.take(i),
        items.skip(i).to_multiset() == swap_removed(items, i).skip(i).to_multiset().insert(items[i]),
{
    broadcast use vstd::multiset::group_multiset_axioms;

    let left = swap_removed(items, i);
    assert(left.take(i) =~= items.take(i));
    let tail = items.skip(i);
    if i == items.len() - 1 {
        assert(left.skip(i) =~= seq![]);
        assert(tail =~= seq![].push(items[i]));
        vstd::seq_lib::to_multiset_build(Seq::<T>::empty(), items[i]);
    } else {
        let middle = items.subrange(i + 1, items.len() - 1);
        assert(left.skip(i) =~= seq![items.last()] + middle);
        assert(tail =~= (seq![items[i]] + middle).push(items.last()));
        vstd::seq_lib::to_multiset_build(seq![items[i]] + middle, items.last());
        vstd::seq_lib::lemma_multiset_commutative(seq![items[i]], middle);
        vstd::seq_lib::lemma_multiset_commutative(seq![items.last()], middle);
        lemma_singleton(items[i]);
        lemma_singleton(items.last());
        assert(tail.to_multiset() =~= left.skip(i).to_multiset().insert(items[i]));
    }
}

proof fn lemma_nothing<T>()
    ensures
        Seq::<T>::empty().to_multiset() == vstd::multiset::Multiset::<T>::empty(),
{
    broadcast use {vstd::multiset::group_multiset_axioms, vstd::seq_lib::to_multiset_contains};

    assert(Seq::<T>::empty().to_multiset() =~= vstd::multiset::Multiset::<T>::empty());
}

proof fn lemma_singleton<T>(x: T)
    ensures
        seq![x].to_multiset() == vstd::multiset::Multiset::<T>::empty().insert(x),
{
    broadcast use vstd::multiset::group_multiset_axioms;

    lemma_nothing::<T>();
    assert(seq![x] =~= Seq::<T>::empty().push(x));
    vstd::seq_lib::to_multiset_build(Seq::<T>::empty(), x);
}

/// The jobs served, with one more served first.
proof fn lemma_serve_first<S>(first: Served<S>, rest: Seq<Served<S>>, c: Caller<S>)
    ensures
        served_jobs(seq![first] + rest).to_multiset() == served_jobs(rest).to_multiset().insert(
            first.job,
        ),
        kept_jobs(seq![first] + rest, c) == (if first.event.done {
            kept_jobs(rest, c)
        } else {
            seq![c.kept(first.job)] + kept_jobs(rest, c)
        }),
{
    broadcast use vstd::multiset::group_multiset_axioms;

    let out = seq![first] + rest;
    assert(out.drop_first() =~= rest);
    assert(served_jobs(out) =~= seq![first.job] + served_jobs(rest));
    vstd::seq_lib::lemma_multiset_commutative(seq![first.job], served_jobs(rest));
    lemma_singleton(first.job);
    assert(served_jobs(out).to_multiset() =~= served_jobs(rest).to_multiset().insert(first.job));
}

/// A tick serves every active job exactly once, whatever the model chooses: the jobs that it comes
/// to are, as often as they occur, those from the cursor on. Each gets the event that it is owed.
/// Those that are done leave, the others stay with one token more, and the FIFO is left alone.
pub proof fn law_tick_serves_each_job_once<S>(v: SchedulerView<S>, vocab: Seq<u8>, c: Caller<S>)
    requires
        v.cursor <= v.active.len(),
    ensures
        ({
            let (end, out) = serve(v, vocab, c);
            &&& served_jobs(out).to_multiset() == v.active.skip(v.cursor as int).to_multiset()
            &&& forall|i: int|
                0 <= i < out.len() ==> (#[trigger] out[i]).event == c.event(vocab, out[i].job)
            &&& end.active.to_multiset() == v.active.take(v.cursor as int).to_multiset().add(
                kept_jobs(out, c).to_multiset(),
            )
            &&& end.waiting == v.waiting
            &&& end.max_batch == v.max_batch
            &&& end.step(vocab, StepEvent::Next).1 is Done
        }),
    decreases v.active.len() - v.cursor,
{
    broadcast use vstd::multiset::group_multiset_axioms;

    let at = v.cursor as int;
    let (end, out) = serve(v, vocab, c);
    if at >= v.active.len() {
        assert(v.active.skip(at) =~= seq![]);
        assert(v.active.take(at) =~= v.active);
        assert(served_jobs(out) =~= seq![]);
        lemma_nothing::<JobView<S>>();
        assert(end.active.to_multiset() =~= v.active.take(at).to_multiset().add(
            kept_jobs(out, c).to_multiset(),
        ));
    } else {
        let job = v.active[at];
        let first = Served { job, event: c.event(vocab, job) };
        let (rng, state, id) = (c.work)(job);
        let run = SchedulerView {
            active: v.active.update(at, JobView { rng, state, ..job }),
            ..v
        };
        lemma_swap_removed(v.active, at);
        if job.max_new == 0 || c.iterated(job).finished() {
            let next = v.without_current();
            assert(run.without_current().active =~= next.active);
            law_tick_serves_each_job_once(next, vocab, c);
            let (_, rest) = serve(next, vocab, c);
            assert(out == seq![first] + rest);
            lemma_serve_first(first, rest, c);
            assert(served_jobs(out).to_multiset() =~= v.active.skip(at).to_multiset());
            assert forall|i: int| 0 <= i < out.len() implies (#[trigger] out[i]).event == c.event(
                vocab,
                out[i].job,
            ) by {
                if i > 0 {
                    assert(out[i] == rest[i - 1]);
                }
            }
        } else {
            let told = run.step(vocab, StepEvent::Sampled(id)).0;
            let next = SchedulerView {
                active: v.active.update(at, c.kept(job)),
                cursor: v.cursor + 1,
                ..v
            };
            assert(told.active.update(at, c.kept(job)) =~= next.active);
            law_tick_serves_each_job_once(next, vocab, c);
            let (_, rest) = serve(next, vocab, c);
            assert(out == seq![first] + rest);
            lemma_serve_first(first, rest, c);
            assert(v.active.skip(at) =~= seq![job] + next.active.skip(at + 1));
            vstd::seq_lib::lemma_multiset_commutative(seq![job], next.active.skip(at + 1));
            lemma_singleton(job);
            assert(served_jobs(out).to_multiset() =~= v.active.skip(at).to_multiset());
            assert(next.active.take(at + 1) =~= v.active.take(at).push(c.kept(job)));
            vstd::seq_lib::to_multiset_build(v.active.take(at), c.kept(job));
            vstd::seq_lib::lemma_multiset_commutative(seq![c.kept(job)], kept_jobs(rest, c));
            lemma_singleton(c.kept(job));
            assert(end.active.to_multiset() =~= v.active.take(at).to_multiset().add(
                kept_jobs(out, c).to_multiset(),
            ));
            assert forall|i: int| 0 <= i < out.len() implies (#[trigger] out[i]).event == c.event(
                vocab,
                out[i].job,
            ) by {
                if i > 0 {
                    assert(out[i] == rest[i - 1]);
                }
            }
        }
    }
}

/// Admission is first come, first served: it changes neither which jobs there are nor their order,
/// it never overfills the active set, and it leaves room only when nobody waits.
pub proof fn law_admission_is_fifo<S>(v: SchedulerView<S>)
    ensures
        v.admitted().active + v.admitted().waiting == v.active + v.waiting,
        v.active.is_prefix_of(v.admitted().active),
        v.active.len() <= v.max_batch ==> v.admitted().active.len() <= v.max_batch,
        v.admitted().active.len() < v.max_batch ==> v.admitted().waiting.len() == 0,
{
    assert(v.waiting.take(v.room() as int) + v.waiting.skip(v.room() as int) =~= v.waiting);
    assert(v.admitted().active + v.admitted().waiting =~= v.active + v.waiting);
}

/// A tick begins with the admission and then comes to the first active job.
pub proof fn law_tick_begins_with_admission<S>(v: SchedulerView<S>, vocab: Seq<u8>)
    ensures
        ({
            let ready = SchedulerView { cursor: 0, ..v.admitted() };
            v.step(vocab, StepEvent::Begin) == (if ready.active.len() == 0 {
                (ready, ActionView::Idle)
            } else {
                ready.step(vocab, StepEvent::Next)
            })
        }),
        v.max_batch > 0 && (v.waiting.len() > 0 || v.active.len() > 0) ==> !(v.step(
            vocab,
            StepEvent::Begin,
        ).1 is Idle),
{
}

/// No event overfills the active set.
pub proof fn law_batch_is_bounded<S>(v: SchedulerView<S>, vocab: Seq<u8>, event: StepEvent)
    requires
        v.active.len() <= v.max_batch,
        event is Sampled ==> v.cursor < v.active.len(),
    ensures
        v.step(vocab, event).0.active.len() <= v.max_batch,
        v.step(vocab, event).0.max_batch == v.max_batch,
{
    law_admission_is_fifo(v);
}

/// A job that still wants tokens gets exactly as many as it wants: one in every iteration, and it
/// is told that it is done with the last of them.
pub proof fn law_job_ends_with_its_last_token<S>(job: JobView<S>, vocab: Seq<u8>, c: Caller<S>)
    requires
        job.n_new < job.max_new,
    ensures
        c.event(vocab, job).token.len() == 1,
        c.iterated(job).n_new == job.n_new + 1,
        c.iterated(job).ids.len() == job.ids.len() + 1,
        c.event(vocab, job).done <==> c.iterated(job).n_new == job.max_new,
        !c.event(vocab, job).done ==> c.kept(job).n_new < c.kept(job).max_new,
{
}

/// The events that a job gets, iteration by iteration, until it is done.
pub open spec fn events_of<S>(job: JobView<S>, vocab: Seq<u8>, c: Caller<S>) -> Seq<EventView>
    decreases job.max_new - job.n_new,
{
    let event = c.event(vocab, job);
    if event.done {
        seq![event]
    } else {
        seq![event] + events_of(c.kept(job), vocab, c)
    }
}

/// The tokens that the caller chooses for a job in `n` iterations, one after the other.
pub open spec fn chosen<S>(job: JobView<S>, c: Caller<S>, n: nat) -> Seq<usize>
    decreases n,
{
    if n == 0 {
        seq![]
    } else {
        seq![(c.work)(job).2] + chosen(c.kept(job), c, (n - 1) as nat)
    }
}

/// Is only the last event of a job marked as the last?
pub open spec fn ends_once(events: Seq<EventView>) -> bool {
    &&& events.len() > 0
    &&& events.last().done
    &&& forall|i: int| 0 <= i < events.len() - 1 ==> !(#[trigger] events[i]).done
}

/// From the queue to its end a job gets as many events as it wants tokens, each with one character
/// out of the vocabulary, and the last of them says that it is done. One that wants no token gets
/// one event without text.
pub proof fn law_job_gets_what_it_wants<S>(job: JobView<S>, vocab: Seq<u8>, c: Caller<S>)
    requires
        vocab.len() > 0,
        job.n_new < job.max_new || job.max_new == 0,
    ensures
        ends_once(events_of(job, vocab, c)),
        job.max_new == 0 ==> events_of(job, vocab, c) == seq![empty_event()],
        job.max_new > 0 ==> events_of(job, vocab, c).len() == job.max_new - job.n_new,
        job.max_new > 0 ==> forall|i: int|
            0 <= i < events_of(job, vocab, c).len() ==> is_token(
                #[trigger] events_of(job, vocab, c)[i],
                vocab,
            ),
    decreases job.max_new - job.n_new,
{
    let event = c.event(vocab, job);
    if job.max_new > 0 {
        law_job_ends_with_its_last_token(job, vocab, c);
        let id = (c.work)(job).2;
        assert(vocab.contains(crate::lm::decoded(vocab, id)));
        assert(is_token(event, vocab));
    }
    if !event.done {
        let rest = events_of(c.kept(job), vocab, c);
        law_job_gets_what_it_wants(c.kept(job), vocab, c);
        let all = events_of(job, vocab, c);
        assert forall|i: int| 0 <= i < all.len() implies is_token(#[trigger] all[i], vocab) by {
            if i > 0 {
                assert(all[i] == rest[i - 1]);
            }
        }
        assert forall|i: int| 0 <= i < all.len() - 1 implies !(#[trigger] all[i]).done by {
            if i > 0 {
                assert(all[i] == rest[i - 1]);
            }
        }
        assert(all.last() == rest.last());
    }
}

/// Does an event bring one character, which stands for a byte of the vocabulary?
pub open spec fn is_token(event: EventView, vocab: Seq<u8>) -> bool {
    exists|b: u8| #[trigger] vocab.contains(b) && event.token == seq![b as char]
}

/// The model runs over the prompt of a job once: in its first iteration and in no other.
pub proof fn law_prompt_is_run_once<S>(v: SchedulerView<S>, vocab: Seq<u8>, c: Caller<S>)
    requires
        v.cursor < v.active.len(),
        v.active[v.cursor as int].max_new > 0,
    ensures
        v.step(vocab, StepEvent::Next).1 == (ActionView::<S>::Decode {
            index: v.cursor,
            prefill: !v.active[v.cursor as int].prefilled,
        }),
        c.kept(v.active[v.cursor as int]).prefilled,
{
}

/// How many iterations a job still takes.
pub open spec fn owes<S>(job: JobView<S>) -> nat {
    if job.n_new < job.max_new {
        (job.max_new - job.n_new) as nat
    } else {
        1
    }
}

/// How many iterations jobs still take together.
pub open spec fn owed<S>(jobs: Seq<JobView<S>>) -> nat
    decreases jobs.len(),
{
    if jobs.len() == 0 {
        0
    } else {
        owed(jobs.drop_last()) + owes(jobs.last())
    }
}

proof fn lemma_owed_bound<S>(jobs: Seq<JobView<S>>)
    ensures
        owed(jobs) >= jobs.len(),
    decreases jobs.len(),
{
    if jobs.len() > 0 {
        lemma_owed_bound(jobs.drop_last());
    }
}

proof fn lemma_owed_update<S>(jobs: Seq<JobView<S>>, i: int, job: JobView<S>)
    requires
        0 <= i < jobs.len(),
    ensures
        owed(jobs.update(i, job)) == owed(jobs) - owes(jobs[i]) + owes(job),
    decreases jobs.len(),
{
    let front = jobs.drop_last();
    if i == jobs.len() - 1 {
        assert(jobs.update(i, job).drop_last() =~= front);
    } else {
        lemma_owed_update(front, i, job);
        assert(jobs.update(i, job).drop_last() =~= front.update(i, job));
    }
}

proof fn lemma_owed_removed<S>(jobs: Seq<JobView<S>>, i: int)
    requires
        0 <= i < jobs.len(),
    ensures
        owed(swap_removed(jobs, i)) == owed(jobs) - owes(jobs[i]),
{
    lemma_owed_update(jobs, i, jobs.last());
    assert(jobs.update(i, jobs.last()).last() == jobs.last());
}

proof fn lemma_owed_sum<S>(a: Seq<JobView<S>>, b: Seq<JobView<S>>)
    ensures
        owed(a + b) == owed(a) + owed(b),
    decreases b.len(),
{
    if b.len() == 0 {
        assert(a + b =~= a);
    } else {
        lemma_owed_sum(a, b.drop_last());
        assert((a + b).drop_last() =~= a + b.drop_last());
    }
}

/// A tick takes one iteration off every job that it comes to.
proof fn lemma_tick_progress<S>(v: SchedulerView<S>, vocab: Seq<u8>, c: Caller<S>)
    requires
        v.cursor <= v.active.len(),
    ensures
        owed(serve(v, vocab, c).0.active) == owed(v.active) - (v.active.len() - v.cursor),
    decreases v.active.len() - v.cursor,
{
    let at = v.cursor as int;
    if at < v.active.len() {
        let job = v.active[at];
        let (rng, state, id) = (c.work)(job);
        let run = SchedulerView {
            active: v.active.update(at, JobView { rng, state, ..job }),
            ..v
        };
        if job.max_new == 0 || c.iterated(job).finished() {
            let next = v.without_current();
            assert(run.without_current().active =~= next.active);
            lemma_owed_removed(v.active, at);
            lemma_tick_progress(next, vocab, c);
        } else {
            let told = run.step(vocab, StepEvent::Sampled(id)).0;
            let next = SchedulerView {
                active: v.active.update(at, c.kept(job)),
                cursor: v.cursor + 1,
                ..v
            };
            assert(told.active.update(at, c.kept(job)) =~= next.active);
            lemma_owed_update(v.active, at, c.kept(job));
            lemma_tick_progress(next, vocab, c);
        }
    }
}

/// A scheduler after `n` ticks.
pub open spec fn after_ticks<S>(v: SchedulerView<S>, vocab: Seq<u8>, c: Caller<S>, n: nat) -> SchedulerView<
    S,
>
    decreases n,
{
    if n == 0 {
        v
    } else {
        let ready = SchedulerView { cursor: 0, ..v.admitted() };
        after_ticks(serve(ready, vocab, c).0, vocab, c, (n - 1) as nat)
    }
}

/// Every job is finished in the end, whatever the model chooses: after as many ticks as the jobs
/// take iterations together, at the latest, nobody waits and nobody is active.
pub proof fn law_every_job_is_finished<S>(
    v: SchedulerView<S>,
    vocab: Seq<u8>,
    c: Caller<S>,
    n: nat,
)
    requires
        v.max_batch > 0,
        n >= owed(v.active) + owed(v.waiting),
    ensures
        after_ticks(v, vocab, c, n).active.len() == 0,
        after_ticks(v, vocab, c, n).waiting.len() == 0,
    decreases n,
{
    lemma_owed_bound(v.active);
    lemma_owed_bound(v.waiting);
    if n > 0 {
        let ready = SchedulerView { cursor: 0, ..v.admitted() };
        let next = serve(ready, vocab, c).0;
        law_admission_is_fifo(v);
        lemma_owed_sum(v.active, v.waiting);
        lemma_owed_sum(ready.active, ready.waiting);
        lemma_tick_progress(ready, vocab, c);
        law_tick_serves_each_job_once(ready, vocab, c);
        lemma_owed_bound(ready.active);
        lemma_owed_bound(ready.waiting);
        law_every_job_is_finished(next, vocab, c, (n - 1) as nat);
    }
}

/// A run: before each tick some more jobs join the queue. How it leaves the scheduler, and what it
/// served, in order.
pub open spec fn history<S>(
    v: SchedulerView<S>,
    vocab: Seq<u8>,
    c: Caller<S>,
    arrivals: Seq<Seq<JobView<S>>>,
) -> (SchedulerView<S>, Seq<Served<S>>)
    decreases arrivals.len(),
{
    if arrivals.len() == 0 {
        (v, seq![])
    } else {
        let queued = SchedulerView { waiting: v.waiting + arrivals.first(), ..v };
        let ready = SchedulerView { cursor: 0, ..queued.admitted() };
        let (end, out) = serve(ready, vocab, c);
        let (last, rest) = history(end, vocab, c, arrivals.drop_first());
        (last, out + rest)
    }
}

/// The events that went to the jobs with the tag `t`, in order.
pub open spec fn events_under<S>(out: Seq<Served<S>>, tag: spec_fn(S) -> int, t: int) -> Seq<EventView>
    decreases out.len(),
{
    if out.len() == 0 {
        seq![]
    } else {
        let rest = events_under(out.drop_first(), tag, t);
        if tag(out.first().job.state) == t {
            seq![out.first().event] + rest
        } else {
            rest
        }
    }
}

/// Does no job have the tag `t`?
pub open spec fn absent<S>(jobs: Seq<JobView<S>>, tag: spec_fn(S) -> int, t: int) -> bool {
    forall|i: int| 0 <= i < jobs.len() ==> tag((#[trigger] jobs[i]).state) != t
}

/// Does the job at `p` have the tag `t`, and no other?
pub open spec fn only_at<S>(jobs: Seq<JobView<S>>, tag: spec_fn(S) -> int, t: int, p: int) -> bool {
    &&& 0 <= p < jobs.len()
    &&& tag(jobs[p].state) == t
    &&& forall|i: int| 0 <= i < jobs.len() && i != p ==> tag((#[trigger] jobs[i]).state) != t
}

impl<S> Caller<S> {
    /// Does the caller leave the tags of jobs alone?
    pub open spec fn keeps(self, tag: spec_fn(S) -> int) -> bool {
        forall|job: JobView<S>|
            #![trigger (self.work)(job)]
            #![trigger (self.settle)(job)]
            tag((self.work)(job).1) == tag(job.state) && tag((self.settle)(job)) == tag(job.state)
    }
}

/// The scheduler after the job at its cursor was served.
spec fn served_next<S>(v: SchedulerView<S>, vocab: Seq<u8>, c: Caller<S>) -> SchedulerView<S> {
    let job = v.active[v.cursor as int];
    if c.event(vocab, job).done {
        v.without_current()
    } else {
        SchedulerView {
            active: v.active.update(v.cursor as int, c.kept(job)),
            cursor: v.cursor + 1,
            ..v
        }
    }
}

/// The rest of a tick is one job and then the rest.
proof fn lemma_serve_step<S>(v: SchedulerView<S>, vocab: Seq<u8>, c: Caller<S>)
    requires
        v.cursor < v.active.len(),
    ensures
        ({
            let job = v.active[v.cursor as int];
            let next = served_next(v, vocab, c);
            &&& serve(v, vocab, c).0 == serve(next, vocab, c).0
            &&& serve(v, vocab, c).1 == seq![Served { job, event: c.event(vocab, job) }] + serve(
                next,
                vocab,
                c,
            ).1
        }),
{
    let at = v.cursor as int;
    let job = v.active[at];
    let next = served_next(v, vocab, c);
    let (rng, state, id) = (c.work)(job);
    let run = SchedulerView { active: v.active.update(at, JobView { rng, state, ..job }), ..v };
    if c.event(vocab, job).done {
        assert(run.without_current().active =~= next.active);
    } else {
        let told = run.step(vocab, StepEvent::Sampled(id)).0;
        assert(told.active.update(at, c.kept(job)) =~= next.active);
    }
}

proof fn lemma_under_first<S>(first: Served<S>, rest: Seq<Served<S>>, tag: spec_fn(S) -> int, t: int)
    ensures
        events_under(seq![first] + rest, tag, t) == (if tag(first.job.state) == t {
            seq![first.event] + events_under(rest, tag, t)
        } else {
            events_under(rest, tag, t)
        }),
{
    assert((seq![first] + rest).drop_first() =~= rest);
}

proof fn lemma_under_sum<S>(
    a: Seq<Served<S>>,
    b: Seq<Served<S>>,
    tag: spec_fn(S) -> int,
    t: int,
)
    ensures
        events_under(a + b, tag, t) == events_under(a, tag, t) + events_under(b, tag, t),
    decreases a.len(),
{
    if a.len() == 0 {
        assert(a + b =~= b);
        assert(events_under(a, tag, t) + events_under(b, tag, t) =~= events_under(b, tag, t));
    } else {
        lemma_under_sum(a.drop_first(), b, tag, t);
        assert((a + b).drop_first() =~= a.drop_first() + b);
        assert(events_under(a + b, tag, t) =~= events_under(a, tag, t) + events_under(b, tag, t));
    }
}

/// A tick serves nothing under a tag that no job has.
proof fn lemma_tick_absent<S>(
    v: SchedulerView<S>,
    vocab: Seq<u8>,
    c: Caller<S>,
    tag: spec_fn(S) -> int,
    t: int,
)
    requires
        v.cursor <= v.active.len(),
        c.keeps(tag),
        absent(v.active, tag, t),
    ensures
        absent(serve(v, vocab, c).0.active, tag, t),
        events_under(serve(v, vocab, c).1, tag, t) == Seq::<EventView>::empty(),
    decreases v.active.len() - v.cursor,
{
    if v.cursor < v.active.len() {
        let job = v.active[v.cursor as int];
        let next = served_next(v, vocab, c);
        lemma_serve_step(v, vocab, c);
        lemma_kept_tag(job, c, tag);
        lemma_tick_absent(next, vocab, c, tag, t);
        lemma_under_first(
            Served { job, event: c.event(vocab, job) },
            serve(next, vocab, c).1,
            tag,
            t,
        );
    }
}

proof fn lemma_kept_tag<S>(job: JobView<S>, c: Caller<S>, tag: spec_fn(S) -> int)
    requires
        c.keeps(tag),
    ensures
        tag(c.kept(job).state) == tag(job.state),
{
    let (rng, state, id) = (c.work)(job);
    assert(tag(state) == tag(job.state));
    assert(tag((c.settle)(c.iterated(job))) == tag(c.iterated(job).state));
}

/// A tick does not come back to a job that it has passed.
proof fn lemma_tick_passed<S>(
    v: SchedulerView<S>,
    vocab: Seq<u8>,
    c: Caller<S>,
    tag: spec_fn(S) -> int,
    t: int,
    p: int,
)
    requires
        v.cursor <= v.active.len(),
        p < v.cursor,
        c.keeps(tag),
        only_at(v.active, tag, t, p),
    ensures
        only_at(serve(v, vocab, c).0.active, tag, t, p),
        serve(v, vocab, c).0.active[p] == v.active[p],
        events_under(serve(v, vocab, c).1, tag, t) == Seq::<EventView>::empty(),
    decreases v.active.len() - v.cursor,
{
    if v.cursor < v.active.len() {
        let job = v.active[v.cursor as int];
        let next = served_next(v, vocab, c);
        lemma_serve_step(v, vocab, c);
        lemma_kept_tag(job, c, tag);
        lemma_tick_passed(next, vocab, c, tag, t, p);
        lemma_under_first(
            Served { job, event: c.event(vocab, job) },
            serve(next, vocab, c).1,
            tag,
            t,
        );
    }
}

/// What a tick makes of the one job with the tag `t`: it is gone, or it is kept somewhere.
spec fn is_served<S>(
    job: JobView<S>,
    end: Seq<JobView<S>>,
    vocab: Seq<u8>,
    c: Caller<S>,
    tag: spec_fn(S) -> int,
    t: int,
) -> bool {
    if c.event(vocab, job).done {
        absent(end, tag, t)
    } else {
        exists|q: int| #[trigger] only_at(end, tag, t, q) && end[q] == c.kept(job)
    }
}

/// A tick serves the one job with the tag `t` once.
proof fn lemma_tick_ahead<S>(
    v: SchedulerView<S>,
    vocab: Seq<u8>,
    c: Caller<S>,
    tag: spec_fn(S) -> int,
    t: int,
    p: int,
)
    requires
        v.cursor <= p,
        c.keeps(tag),
        only_at(v.active, tag, t, p),
    ensures
        is_served(v.active[p], serve(v, vocab, c).0.active, vocab, c, tag, t),
        events_under(serve(v, vocab, c).1, tag, t) == seq![c.event(vocab, v.active[p])],
    decreases v.active.len() - v.cursor,
{
    let at = v.cursor as int;
    let job = v.active[at];
    let next = served_next(v, vocab, c);
    let rest = serve(next, vocab, c).1;
    lemma_serve_step(v, vocab, c);
    lemma_kept_tag(job, c, tag);
    lemma_under_first(Served { job, event: c.event(vocab, job) }, rest, tag, t);
    if p == at {
        if c.event(vocab, job).done {
            lemma_tick_absent(next, vocab, c, tag, t);
        } else {
            lemma_tick_passed(next, vocab, c, tag, t, p);
        }
        assert(seq![c.event(vocab, job)] + Seq::<EventView>::empty() =~= seq![c.event(vocab, job)]);
    } else {
        let q = if c.event(vocab, job).done && p == v.active.len() - 1 {
            at
        } else {
            p
        };
        assert(only_at(next.active, tag, t, q));
        assert(next.active[q] == v.active[p]);
        lemma_tick_ahead(next, vocab, c, tag, t, q);
    }
}

/// The one job with the tag `t` among the jobs of two groups.
proof fn lemma_only_parts<S>(
    a: Seq<JobView<S>>,
    b: Seq<JobView<S>>,
    tag: spec_fn(S) -> int,
    t: int,
    p: int,
)
    requires
        only_at(a + b, tag, t, p),
    ensures
        p < a.len() ==> only_at(a, tag, t, p) && absent(b, tag, t),
        p >= a.len() ==> absent(a, tag, t) && only_at(b, tag, t, p - a.len()),
{
    let all = a + b;
    assert forall|i: int| 0 <= i < a.len() && i != p implies tag((#[trigger] a[i]).state) != t by {
        assert(all[i] == a[i]);
    }
    assert forall|i: int| 0 <= i < b.len() && i != p - a.len() implies tag((#[trigger] b[i]).state)
        != t by {
        assert(all[i + a.len()] == b[i]);
    }
    if p < a.len() {
        assert(all[p] == a[p]);
    } else {
        assert(all[p] == b[p - a.len()]);
    }
}

proof fn lemma_only_sum<S>(
    a: Seq<JobView<S>>,
    b: Seq<JobView<S>>,
    tag: spec_fn(S) -> int,
    t: int,
    p: int,
)
    ensures
        only_at(a, tag, t, p) && absent(b, tag, t) ==> only_at(a + b, tag, t, p) && (a + b)[p]
            == a[p],
        absent(a, tag, t) && only_at(b, tag, t, p) ==> only_at(a + b, tag, t, a.len() + p) && (a
            + b)[a.len() + p] == b[p],
        absent(a, tag, t) && absent(b, tag, t) ==> absent(a + b, tag, t),
{
    let all = a + b;
    assert forall|i: int| 0 <= i < all.len() implies (#[trigger] all[i]) == (if i < a.len() {
        a[i]
    } else {
        b[i - a.len()]
    }) by {}
}

/// The jobs of a scheduler, those of the queue behind the active ones.
pub open spec fn jobs_of<S>(v: SchedulerView<S>) -> Seq<JobView<S>> {
    v.active + v.waiting
}

proof fn lemma_run_absent<S>(
    v: SchedulerView<S>,
    vocab: Seq<u8>,
    c: Caller<S>,
    arrivals: Seq<Seq<JobView<S>>>,
    tag: spec_fn(S) -> int,
    t: int,
)
    requires
        c.keeps(tag),
        absent(jobs_of(v), tag, t),
        forall|k: int| 0 <= k < arrivals.len() ==> absent(#[trigger] arrivals[k], tag, t),
    ensures
        absent(jobs_of(history(v, vocab, c, arrivals).0), tag, t),
        events_under(history(v, vocab, c, arrivals).1, tag, t) == Seq::<EventView>::empty(),
    decreases arrivals.len(),
{
    if arrivals.len() > 0 {
        let queued = SchedulerView { waiting: v.waiting + arrivals.first(), ..v };
        let ready = SchedulerView { cursor: 0, ..queued.admitted() };
        let (end, out) = serve(ready, vocab, c);
        let later = arrivals.drop_first();
        assert(absent(arrivals[0], tag, t));
        assert(jobs_of(queued) =~= jobs_of(v) + arrivals.first());
        lemma_only_sum(jobs_of(v), arrivals.first(), tag, t, 0);
        law_admission_is_fifo(queued);
        assert(jobs_of(ready) == jobs_of(queued));
        lemma_absent_parts(ready.active, ready.waiting, tag, t);
        lemma_tick_absent(ready, vocab, c, tag, t);
        law_tick_serves_each_job_once(ready, vocab, c);
        lemma_only_sum(end.active, end.waiting, tag, t, 0);
        assert forall|k: int| 0 <= k < later.len() implies absent(#[trigger] later[k], tag, t) by {
            assert(later[k] == arrivals[k + 1]);
        }
        lemma_run_absent(end, vocab, c, later, tag, t);
        let rest = history(end, vocab, c, later).1;
        lemma_under_sum(out, rest, tag, t);
        assert(events_under(out + rest, tag, t) =~= Seq::<EventView>::empty());
    }
}

proof fn lemma_absent_parts<S>(
    a: Seq<JobView<S>>,
    b: Seq<JobView<S>>,
    tag: spec_fn(S) -> int,
    t: int,
)
    requires
        absent(a + b, tag, t),
    ensures
        absent(a, tag, t),
        absent(b, tag, t),
{
    let all = a + b;
    assert forall|i: int| 0 <= i < a.len() implies tag((#[trigger] a[i]).state) != t by {
        assert(all[i] == a[i]);
    }
    assert forall|i: int| 0 <= i < b.len() implies tag((#[trigger] b[i]).state) != t by {
        assert(all[i + a.len()] == b[i]);
    }
}

/// In any run a job gets its own events and no others, in order, whatever jobs are there with it or
/// join later: the events served under its tag are the first of [`events_of`] the job, and all of
/// them once the job is no longer there.
pub proof fn law_run_serves_each_job_its_events<S>(
    v: SchedulerView<S>,
    vocab: Seq<u8>,
    c: Caller<S>,
    arrivals: Seq<Seq<JobView<S>>>,
    tag: spec_fn(S) -> int,
    t: int,
    p: int,
)
    requires
        c.keeps(tag),
        only_at(jobs_of(v), tag, t, p),
        forall|k: int| 0 <= k < arrivals.len() ==> absent(#[trigger] arrivals[k], tag, t),
    ensures
        ({
            let job = jobs_of(v)[p];
            let (end, out) = history(v, vocab, c, arrivals);
            &&& events_under(out, tag, t).is_prefix_of(events_of(job, vocab, c))
            &&& absent(jobs_of(end), tag, t) ==> events_under(out, tag, t) == events_of(
                job,
                vocab,
                c,
            )
        }),
    decreases arrivals.len(),
{
    let job = jobs_of(v)[p];
    if arrivals.len() == 0 {
        assert(!absent(jobs_of(v), tag, t));
    } else {
        let queued = SchedulerView { waiting: v.waiting + arrivals.first(), ..v };
        let ready = SchedulerView { cursor: 0, ..queued.admitted() };
        let (end, out) = serve(ready, vocab, c);
        let later = arrivals.drop_first();
        let rest = history(end, vocab, c, later).1;
        assert(absent(arrivals[0], tag, t));
        assert(jobs_of(queued) =~= jobs_of(v) + arrivals.first());
        lemma_only_sum(jobs_of(v), arrivals.first(), tag, t, p);
        law_admission_is_fifo(queued);
        assert(jobs_of(ready) == jobs_of(queued));
        lemma_only_parts(ready.active, ready.waiting, tag, t, p);
        law_tick_serves_each_job_once(ready, vocab, c);
        assert forall|k: int| 0 <= k < later.len() implies absent(#[trigger] later[k], tag, t) by {
            assert(later[k] == arrivals[k + 1]);
        }
        lemma_under_sum(out, rest, tag, t);
        let all = events_under(out + rest, tag, t);
        if p < ready.active.len() {
            assert(ready.active[p] == job);
            lemma_tick_ahead(ready, vocab, c, tag, t, p);
            if c.event(vocab, job).done {
                lemma_only_sum(end.active, end.waiting, tag, t, 0);
                lemma_run_absent(end, vocab, c, later, tag, t);
                assert(all =~= events_of(job, vocab, c));
            } else {
                let q = choose|q: int| #[trigger]
                    only_at(end.active, tag, t, q) && end.active[q] == c.kept(job);
                lemma_only_sum(end.active, end.waiting, tag, t, q);
                law_run_serves_each_job_its_events(end, vocab, c, later, tag, t, q);
                assert(all == seq![c.event(vocab, job)] + events_under(rest, tag, t));
            }
        } else {
            let q = p - ready.active.len();
            assert(ready.waiting[q] == job);
            lemma_tick_absent(ready, vocab, c, tag, t);
            lemma_only_sum(end.active, end.waiting, tag, t, q);
            law_run_serves_each_job_its_events(
                end,
                vocab,
                c,
                later,
                tag,
                t,
                end.active.len() + q,
            );
            assert(all =~= events_under(rest, tag, t));
        }
    }
}

/// Batching changes nothing for a job: in two runs that both finish it, each in any company, it gets
/// the same events.
pub proof fn law_company_does_not_matter<S>(
    v: SchedulerView<S>,
    w: SchedulerView<S>,
    vocab: Seq<u8>,
    c: Caller<S>,
    v_arrivals: Seq<Seq<JobView<S>>>,
    w_arrivals: Seq<Seq<JobView<S>>>,
    tag: spec_fn(S) -> int,
    t: int,
    p: int,
    q: int,
)
    requires
        c.keeps(tag),
        only_at(jobs_of(v), tag, t, p),
        only_at(jobs_of(w), tag, t, q),
        jobs_of(v)[p] == jobs_of(w)[q],
        forall|k: int| 0 <= k < v_arrivals.len() ==> absent(#[trigger] v_arrivals[k], tag, t),
        forall|k: int| 0 <= k < w_arrivals.len() ==> absent(#[trigger] w_arrivals[k], tag, t),
        absent(jobs_of(history(v, vocab, c, v_arrivals).0), tag, t),
        absent(jobs_of(history(w, vocab, c, w_arrivals).0), tag, t),
    ensures
        events_under(history(v, vocab, c, v_arrivals).1, tag, t) == events_under(
            history(w, vocab, c, w_arrivals).1,
            tag,
            t,
        ),
{
    law_run_serves_each_job_its_events(v, vocab, c, v_arrivals, tag, t, p);
    law_run_serves_each_job_its_events(w, vocab, c, w_arrivals, tag, t, q);
}

/// Is `after` the job `before` with the token `id` behind its tokens, and with no other change but
/// that the token is counted and that its prompt is known to have been run?
pub open spec fn has_token<S>(before: JobView<S>, after: JobView<S>, id: usize) -> bool {
    &&& after.ids.len() == before.ids.len() + 1
    &&& forall|k: int| 0 <= k < before.ids.len() ==> #[trigger] after.ids[k] == before.ids[k]
    &&& after.ids[before.ids.len() as int] == id
    &&& after.n_new == before.n_new + 1
    &&& after.max_new == before.max_new
    &&& after.rng == before.rng
    &&& after.state == before.state
    &&& after.prefilled
}

/// A reported token goes to the current job and to no other: the job has its former tokens and
/// behind them exactly this one, and the event spells its byte. With the last token that it wants
/// the job is handed out, and the last active job takes its place; before that it stays where it
/// is, and the tick moves on. The queue is left alone.
pub proof fn law_token_goes_to_the_current_job<S>(v: SchedulerView<S>, vocab: Seq<u8>, id: usize)
    requires
        v.cursor < v.active.len(),
        vocab.len() > 0,
    ensures
        ({
            let (end, asked) = v.step(vocab, StepEvent::Sampled(id));
            let at = v.cursor as int;
            let n = v.active.len() as int;
            let job = v.active[at];
            let byte = vocab[if id < vocab.len() {
                id as int
            } else {
                vocab.len() - 1
            }];
            &&& end.waiting == v.waiting
            &&& end.max_batch == v.max_batch
            &&& match asked {
                ActionView::Retire { job: left, event } => {
                    &&& job.n_new + 1 >= job.max_new
                    &&& has_token(job, left, id)
                    &&& event.token == seq![byte as char]
                    &&& event.done
                    &&& end.cursor == v.cursor
                    &&& end.active.len() == n - 1
                    &&& forall|i: int|
                        0 <= i < n - 1 ==> #[trigger] end.active[i] == v.active[if i == at {
                            n - 1
                        } else {
                            i
                        }]
                },
                ActionView::Deliver { index, event } => {
                    &&& job.n_new + 1 < job.max_new
                    &&& index == v.cursor
                    &&& has_token(job, end.active[at], id)
                    &&& event.token == seq![byte as char]
                    &&& !event.done
                    &&& end.cursor == v.cursor + 1
                    &&& end.active.len() == n
                    &&& forall|i: int|
                        0 <= i < n && i != at ==> #[trigger] end.active[i] == v.active[i]
                },
                _ => false,
            }
        }),
{
}

/// Turning to the job at the cursor changes no job. The tick is over behind the last active job; a
/// job that wants no token is handed out as it is, with an event without text; for any other a
/// token is asked for.
pub proof fn law_turning_to_a_job_changes_none<S>(v: SchedulerView<S>, vocab: Seq<u8>)
    requires
        v.cursor <= v.active.len(),
    ensures
        ({
            let (end, asked) = v.step(vocab, StepEvent::Next);
            let at = v.cursor as int;
            let n = v.active.len() as int;
            &&& end.waiting == v.waiting
            &&& end.max_batch == v.max_batch
            &&& end.cursor == v.cursor
            &&& match asked {
                ActionView::Done => at == n && end == v,
                ActionView::Decode { index, prefill } => {
                    &&& at < n
                    &&& v.active[at].max_new > 0
                    &&& index == at
                    &&& prefill == !v.active[at].prefilled
                    &&& end == v
                },
                ActionView::Retire { job, event } => {
                    &&& at < n
                    &&& job.max_new == 0
                    &&& job == v.active[at]
                    &&& event.token.len() == 0
                    &&& event.done
                    &&& end.active.len() == n - 1
                    &&& forall|i: int|
                        0 <= i < n - 1 ==> #[trigger] end.active[i] == v.active[if i == at {
                            n - 1
                        } else {
                            i
                        }]
                },
                _ => false,
            }
        }),
{
}

/// The jobs with the tag `t` that were served, as they were, in order.
pub open spec fn jobs_under<S>(out: Seq<Served<S>>, tag: spec_fn(S) -> int, t: int) -> Seq<JobView<S>>
    decreases out.len(),
{
    if out.len() == 0 {
        seq![]
    } else {
        let rest = jobs_under(out.drop_first(), tag, t);
        if tag(out.first().job.state) == t {
            seq![out.first().job] + rest
        } else {
            rest
        }
    }
}

proof fn lemma_jobs_under_sum<S>(
    a: Seq<Served<S>>,
    b: Seq<Served<S>>,
    tag: spec_fn(S) -> int,
    t: int,
)
    ensures
        jobs_under(a + b, tag, t) == jobs_under(a, tag, t) + jobs_under(b, tag, t),
        jobs_under(a, tag, t).len() == events_under(a, tag, t).len(),
    decreases a.len(),
{
    if a.len() == 0 {
        assert(a + b =~= b);
        assert(jobs_under(a, tag, t) + jobs_under(b, tag, t) =~= jobs_under(b, tag, t));
    } else {
        lemma_jobs_under_sum(a.drop_first(), b, tag, t);
        assert((a + b).drop_first() =~= a.drop_first() + b);
        assert(jobs_under(a + b, tag, t) =~= jobs_under(a, tag, t) + jobs_under(b, tag, t));
    }
}

/// The job that a tick serves under a tag is the one that has it.
proof fn lemma_tick_job<S>(
    v: SchedulerView<S>,
    vocab: Seq<u8>,
    c: Caller<S>,
    tag: spec_fn(S) -> int,
    t: int,
    p: int,
)
    requires
        v.cursor <= p,
        c.keeps(tag),
        only_at(v.active, tag, t, p),
    ensures
        jobs_under(serve(v, vocab, c).1, tag, t) == seq![v.active[p]],
    decreases v.active.len() - v.cursor,
{
    let at = v.cursor as int;
    let job = v.active[at];
    let next = served_next(v, vocab, c);
    let rest = serve(next, vocab, c).1;
    let first = Served { job, event: c.event(vocab, job) };
    lemma_serve_step(v, vocab, c);
    lemma_kept_tag(job, c, tag);
    assert((seq![first] + rest).drop_first() =~= rest);
    if p == at {
        if c.event(vocab, job).done {
            lemma_tick_absent(next, vocab, c, tag, t);
        } else {
            lemma_tick_passed(next, vocab, c, tag, t, p);
        }
        lemma_jobs_under_sum(rest, seq![], tag, t);
        assert(seq![job] + jobs_under(rest, tag, t) =~= seq![job]);
    } else {
        let q = if c.event(vocab, job).done && p == v.active.len() - 1 {
            at
        } else {
            p
        };
        assert(only_at(next.active, tag, t, q));
        lemma_tick_job(next, vocab, c, tag, t, q);
    }
}

/// Does the text of an event spell the token that the caller chose for the job?
pub open spec fn spells<S>(event: EventView, job: JobView<S>, vocab: Seq<u8>, c: Caller<S>) -> bool {
    let id = (c.work)(job).2;
    event.token == seq![vocab[if id < vocab.len() {
        id as int
    } else {
        vocab.len() - 1
    }] as char]
}

/// Does each of these states of a job have the tokens of the one before it, and behind them exactly
/// the token that the caller chose for that one?
pub open spec fn grows<S>(states: Seq<JobView<S>>, c: Caller<S>) -> bool {
    forall|k: int| #![trigger states[k]]
        0 <= k < states.len() - 1 ==> states[k + 1].ids == states[k].ids + seq![(c.work)(states[k]).2]
}

/// A run from the side of one job that wants tokens: each time that it is served, it has the tokens
/// of the time before and behind them the one that was chosen for it then, beginning with those of
/// its prompt; the event tells it the byte of the token that is chosen for it now; and where it is
/// still there at the end, it has all of them.
pub proof fn law_run_records_the_tokens_told<S>(
    v: SchedulerView<S>,
    vocab: Seq<u8>,
    c: Caller<S>,
    arrivals: Seq<Seq<JobView<S>>>,
    tag: spec_fn(S) -> int,
    t: int,
    p: int,
)
    requires
        c.keeps(tag),
        only_at(jobs_of(v), tag, t, p),
        forall|k: int| 0 <= k < arrivals.len() ==> absent(#[trigger] arrivals[k], tag, t),
        jobs_of(v)[p].max_new > 0,
        vocab.len() > 0,
    ensures
        ({
            let (end, out) = history(v, vocab, c, arrivals);
            let states = jobs_under(out, tag, t);
            let events = events_under(out, tag, t);
            &&& states.len() == events.len()
            &&& states.len() > 0 ==> states[0] == jobs_of(v)[p]
            &&& grows(states, c)
            &&& forall|k: int|
                0 <= k < states.len() ==> spells(#[trigger] events[k], states[k], vocab, c)
            &&& forall|q: int| #[trigger]
                only_at(jobs_of(end), tag, t, q) ==> {
                    let job = jobs_of(end)[q];
                    if states.len() == 0 {
                        job == jobs_of(v)[p]
                    } else {
                        job.ids == states.last().ids + seq![(c.work)(states.last()).2]
                    }
                }
        }),
    decreases arrivals.len(),
{
    let job = jobs_of(v)[p];
    if arrivals.len() == 0 {
        assert forall|q: int| #[trigger] only_at(jobs_of(v), tag, t, q) implies q == p by {}
    } else {
        let queued = SchedulerView { waiting: v.waiting + arrivals.first(), ..v };
        let ready = SchedulerView { cursor: 0, ..queued.admitted() };
        let (mid, out) = serve(ready, vocab, c);
        let later = arrivals.drop_first();
        let (end, rest) = history(mid, vocab, c, later);
        assert(absent(arrivals[0], tag, t));
        assert(jobs_of(queued) =~= jobs_of(v) + arrivals.first());
        lemma_only_sum(jobs_of(v), arrivals.first(), tag, t, p);
        law_admission_is_fifo(queued);
        assert(jobs_of(ready) == jobs_of(queued));
        lemma_only_parts(ready.active, ready.waiting, tag, t, p);
        law_tick_serves_each_job_once(ready, vocab, c);
        assert forall|k: int| 0 <= k < later.len() implies absent(#[trigger] later[k], tag, t) by {
            assert(later[k] == arrivals[k + 1]);
        }
        lemma_under_sum(out, rest, tag, t);
        lemma_jobs_under_sum(out, rest, tag, t);
        lemma_jobs_under_sum(rest, seq![], tag, t);
        let states = jobs_under(out + rest, tag, t);
        let events = events_under(out + rest, tag, t);
        let states_rest = jobs_under(rest, tag, t);
        let events_rest = events_under(rest, tag, t);
        if p < ready.active.len() {
            assert(ready.active[p] == job);
            lemma_tick_ahead(ready, vocab, c, tag, t, p);
            lemma_tick_job(ready, vocab, c, tag, t, p);
            assert(states == seq![job] + states_rest);
            assert(events == seq![c.event(vocab, job)] + events_rest);
            assert(spells(c.event(vocab, job), job, vocab, c));
            if c.event(vocab, job).done {
                lemma_only_sum(mid.active, mid.waiting, tag, t, 0);
                lemma_run_absent(mid, vocab, c, later, tag, t);
                assert(states =~= seq![job]);
                assert forall|q: int| #[trigger] only_at(jobs_of(end), tag, t, q) implies false by {
                    assert(tag(jobs_of(end)[q].state) == t);
                }
            } else {
                let q = choose|q: int| #[trigger]
                    only_at(mid.active, tag, t, q) && mid.active[q] == c.kept(job);
                lemma_only_sum(mid.active, mid.waiting, tag, t, q);
                law_run_records_the_tokens_told(mid, vocab, c, later, tag, t, q);
                assert(c.kept(job).ids =~= job.ids + seq![(c.work)(job).2]);
                assert forall|k: int| #![trigger states[k]] 0 <= k < states.len() - 1 implies states[k
                    + 1].ids == states[k].ids + seq![(c.work)(states[k]).2] by {
                    assert(states[k + 1] == states_rest[k]);
                    if k > 0 {
                        assert(states[k] == states_rest[k - 1]);
                    }
                }
                assert forall|k: int| 0 <= k < states.len() implies spells(
                    #[trigger] events[k],
                    states[k],
                    vocab,
                    c,
                ) by {
                    if k > 0 {
                        assert(states[k] == states_rest[k - 1]);
                        assert(events[k] == events_rest[k - 1]);
                    }
                }
                if states_rest.len() > 0 {
                    assert(states.last() == states_rest.last());
                }
            }
        } else {
            let q = p - ready.active.len();
            assert(ready.waiting[q] == job);
            lemma_tick_absent(ready, vocab, c, tag, t);
            lemma_jobs_under_sum(out, seq![], tag, t);
            lemma_only_sum(mid.active, mid.waiting, tag, t, q);
            law_run_records_the_tokens_told(mid, vocab, c, later, tag, t, mid.active.len() + q);
            assert(states =~= states_rest);
            assert(events =~= events_rest);
        }
    }
}

/// The job after `n` iterations.
pub open spec fn after_iterations<S>(job: JobView<S>, c: Caller<S>, n: nat) -> JobView<S>
    decreases n,
{
    if n == 0 {
        job
    } else {
        after_iterations(c.kept(job), c, (n - 1) as nat)
    }
}

/// Over `n` iterations the tokens of a job are those that it came with, followed by the chosen ones
/// in order.
pub proof fn law_tokens_follow_the_prompt<S>(job: JobView<S>, c: Caller<S>, n: nat)
    ensures
        chosen(job, c, n).len() == n,
        after_iterations(job, c, n).ids == job.ids + chosen(job, c, n),
        after_iterations(job, c, n).n_new == job.n_new + n,
        after_iterations(job, c, n).max_new == job.max_new,
    decreases n,
{
    if n == 0 {
        assert(job.ids + chosen(job, c, n) =~= job.ids);
    } else {
        law_tokens_follow_the_prompt(c.kept(job), c, (n - 1) as nat);
        assert(job.ids + chosen(job, c, n) =~= c.kept(job).ids + chosen(
            c.kept(job),
            c,
            (n - 1) as nat,
        ));
    }
}

/// The texts of the events of a job are the bytes of its chosen tokens, in order.
pub proof fn law_events_spell_the_chosen_tokens<S>(job: JobView<S>, vocab: Seq<u8>, c: Caller<S>)
    requires
        vocab.len() > 0,
        job.n_new < job.max_new,
    ensures
        ({
            let events = events_of(job, vocab, c);
            let ids = chosen(job, c, (job.max_new - job.n_new) as nat);
            &&& events.len() == ids.len()
            &&& forall|k: int|
                0 <= k < ids.len() ==> (#[trigger] events[k]).token == seq![vocab[if ids[k]
                    < vocab.len() {
                    ids[k] as int
                } else {
                    vocab.len() - 1
                }] as char]
        }),
    decreases job.max_new - job.n_new,
{
    let events = events_of(job, vocab, c);
    let n = (job.max_new - job.n_new) as nat;
    let ids = chosen(job, c, n);
    if n == 1 {
        assert(chosen(c.kept(job), c, 0) =~= seq![]);
        assert(ids =~= seq![(c.work)(job).2]);
    } else {
        law_events_spell_the_chosen_tokens(c.kept(job), vocab, c);
        let rest = events_of(c.kept(job), vocab, c);
        let ids_rest = chosen(c.kept(job), c, (n - 1) as nat);
        assert(events == seq![c.event(vocab, job)] + rest);
        assert forall|k: int| 0 <= k < ids.len() implies (#[trigger] events[k]).token == seq![vocab[
            if ids[k] < vocab.len() {
                ids[k] as int
            } else {
                vocab.len() - 1
            }
        ] as char] by {
            if k > 0 {
                assert(events[k] == rest[k - 1]);
                assert(ids[k] == ids_rest[k - 1]);
            }
        }
    }
}

} // verus!
