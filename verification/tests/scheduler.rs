use std::sync::mpsc;

use inference_server::generation::Generation;
use inference_server::lm::{LanguageModel, Lcg};
use inference_server::scheduler::{Job, Scheduler, StepAction, StepEvent, TokenEvent};
use inference_server::MAX_BATCH;

fn word(out: &mut Vec<u8>, n: u32) {
    out.extend_from_slice(&n.to_le_bytes());
}

fn model() -> LanguageModel {
    let vocab = b"abcdefghijklmnopqrstuvwxyz ";
    let mut out: Vec<u8> = b"TGPT".to_vec();
    for n in [1, 27, 1, 1, 0, 1, 8, 27] {
        word(&mut out, n);
    }
    out.extend_from_slice(vocab);
    for n in 0..27 + 8 + 2 {
        word(&mut out, n);
    }
    LanguageModel::load_bytes(&out).unwrap()
}

type Sender = mpsc::Sender<TokenEvent>;

fn job(lm: &LanguageModel, prompt: &str, max_new: usize, seed: u64, tx: Sender) -> Job<Sender> {
    Job {
        ids: lm.encode(prompt),
        max_new,
        n_new: 0,
        rng: Lcg::new(seed),
        prefilled: false,
        state: tx,
    }
}

/// Runs one tick; the tokens come from the generator of each job. Was there anything to do?
fn tick(sched: &mut Scheduler<Sender>, lm: &LanguageModel) -> bool {
    let mut action = sched.step(lm, StepEvent::Begin);
    loop {
        let event = match action {
            StepAction::Idle => return false,
            StepAction::Done => return true,
            StepAction::Decode { index, prefill } => {
                let job = &mut sched.active[index];
                assert_eq!(prefill, !job.prefilled);
                StepEvent::Sampled(job.rng.next_fraction() as usize % lm.vocab.len())
            }
            StepAction::Deliver { index, event } => {
                sched.active[index].state.send(event).unwrap();
                StepEvent::Next
            }
            StepAction::Retire { job, event } => {
                job.state.send(event).unwrap();
                StepEvent::Next
            }
        };
        action = sched.step(lm, event);
    }
}

fn generate(prompt: &str, max_new: usize, seed: u64) -> String {
    let lm = model();
    let mut sched = Scheduler::new(8);
    let (tx, rx) = mpsc::channel();
    sched.enqueue(job(&lm, prompt, max_new, seed, tx));
    while sched.has_work() {
        assert!(tick(&mut sched, &lm));
    }
    let mut text = String::new();
    let mut done: usize = 0;
    for event in rx.try_iter() {
        assert_eq!(done, 0);
        text.push_str(&event.token);
        if event.done {
            done += 1;
        }
    }
    assert_eq!(done, 1);
    text
}

#[test]
fn interleaves_two_jobs() {
    let lm = model();
    let mut sched = Scheduler::new(2);
    let (tx1, rx1) = mpsc::channel();
    let (tx2, rx2) = mpsc::channel();
    sched.enqueue(job(&lm, "the ", 3, 1, tx1));
    sched.enqueue(job(&lm, "cat ", 3, 2, tx2));
    tick(&mut sched, &lm);
    assert_eq!(rx1.try_iter().count(), 1);
    assert_eq!(rx2.try_iter().count(), 1);
    assert_eq!(sched.active.len(), 2);
    tick(&mut sched, &lm);
    tick(&mut sched, &lm);
    assert!(sched.active.is_empty());
    assert_eq!(rx1.try_iter().filter(|e| e.done).count(), 1);
    assert_eq!(rx2.try_iter().filter(|e| e.done).count(), 1);
}

#[test]
fn a_job_alone_gets_new_text() {
    let text = generate("hello", 8, 1);
    assert_eq!(text.len(), 8);
    assert_ne!(text, "hello");
    assert!(text.chars().all(|c| c.is_ascii()));
}

#[test]
fn a_job_gets_as_many_tokens_as_it_wants() {
    assert_eq!(generate("the ", 3, 42).len(), 3);
    assert_eq!(generate("the ", 0, 1).len(), 0);
}

#[test]
fn an_idle_scheduler_does_nothing() {
    let lm = model();
    let mut sched: Scheduler<Sender> = Scheduler::new(0);
    assert_eq!(sched.max_batch, 1);
    assert!(!sched.has_work());
    assert!(!tick(&mut sched, &lm));
}

#[test]
fn admits_in_order_and_up_to_the_batch() {
    let lm = model();
    let mut sched = Scheduler::new(2);
    let mut ends = Vec::new();
    for n in 1..=5usize {
        let (tx, rx) = mpsc::channel();
        sched.enqueue(job(&lm, "a", n, n as u64, tx));
        ends.push(rx);
    }
    let mut ticks: usize = 0;
    let mut counts = vec![0usize; 5];
    while sched.has_work() {
        tick(&mut sched, &lm);
        ticks += 1;
        assert!(sched.active.len() <= 2);
        for (n, rx) in ends.iter().enumerate() {
            let got = rx.try_iter().count();
            assert!(got <= 1);
            counts[n] += got;
        }
        if ticks == 1 {
            assert_eq!(counts, vec![1, 1, 0, 0, 0]);
        }
    }
    assert_eq!(counts, vec![1, 2, 3, 4, 5]);
    assert_eq!(ticks, 9);
}

#[test]
fn a_job_without_tokens_leaves_at_once() {
    let lm = model();
    let mut sched = Scheduler::new(2);
    let (tx, rx) = mpsc::channel();
    sched.enqueue(job(&lm, "a", 0, 1, tx));
    assert!(tick(&mut sched, &lm));
    let event = rx.try_recv().unwrap();
    assert_eq!(event.token, "");
    assert!(event.done);
    assert!(!sched.has_work());
}

#[test]
fn the_last_job_takes_the_place_of_one_that_leaves() {
    let lm = model();
    let mut sched = Scheduler::new(3);
    let mut ends = Vec::new();
    for max_new in [1usize, 2, 3] {
        let (tx, rx) = mpsc::channel();
        sched.enqueue(job(&lm, "a", max_new, 1, tx));
        ends.push(rx);
    }
    tick(&mut sched, &lm);
    let left: Vec<usize> = sched.active.iter().map(|j| j.max_new).collect();
    assert_eq!(left, vec![3, 2]);
    assert_eq!(sched.active[0].ids.len(), 2);
    for rx in &ends {
        assert_eq!(rx.try_iter().count(), 1);
    }
}

#[test]
fn every_job_is_finished() {
    let lm = model();
    let mut sched = Scheduler::new(3);
    let mut ends = Vec::new();
    let mut owed: usize = 0;
    for n in 0..20usize {
        let (tx, rx) = mpsc::channel();
        let max_new = n * 7 % 5;
        owed += max_new.max(1);
        sched.enqueue(job(&lm, "a", max_new, n as u64, tx));
        ends.push((max_new, rx));
    }
    let mut ticks: usize = 0;
    while sched.has_work() {
        tick(&mut sched, &lm);
        ticks += 1;
    }
    assert!(ticks <= owed);
    for (max_new, rx) in ends {
        let events: Vec<TokenEvent> = rx.try_iter().collect();
        assert_eq!(events.len(), max_new.max(1));
        assert!(events[events.len() - 1].done);
        assert_eq!(events.iter().filter(|e| e.done).count(), 1);
    }
}

#[test]
fn a_prompt_is_run_once() {
    let lm = model();
    let mut sched: Scheduler<()> = Scheduler::new(2);
    for _ in 0..2u32 {
        sched.enqueue(Job {
            ids: lm.encode("abc"),
            max_new: 4,
            n_new: 0,
            rng: Lcg::new(1),
            prefilled: false,
            state: (),
        });
    }
    let mut runs: usize = 0;
    let mut steps: usize = 0;
    while sched.has_work() {
        let mut action = sched.step(&lm, StepEvent::Begin);
        loop {
            let event = match action {
                StepAction::Idle | StepAction::Done => break,
                StepAction::Decode { prefill, .. } => {
                    steps += 1;
                    if prefill {
                        runs += 1;
                    }
                    StepEvent::Sampled(0)
                }
                _ => StepEvent::Next,
            };
            action = sched.step(&lm, event);
        }
    }
    assert_eq!(runs, 2);
    assert_eq!(steps, 8);
}

#[test]
fn company_does_not_matter() {
    let alone = generate("the ", 6, 42);
    let lm = model();
    for batch in 1..5usize {
        let mut sched = Scheduler::new(batch);
        let (tx, rx) = mpsc::channel();
        let (other, _ignored) = mpsc::channel();
        for n in 0..3usize {
            sched.enqueue(job(&lm, "x", n * 2, n as u64, other.clone()));
        }
        sched.enqueue(job(&lm, "the ", 6, 42, tx));
        let mut late: usize = 0;
        while sched.has_work() {
            tick(&mut sched, &lm);
            late += 1;
            if late < 4 {
                sched.enqueue(job(&lm, "y", late, late as u64, other.clone()));
            }
        }
        let text: String = rx.try_iter().map(|e| e.token).collect();
        assert_eq!(text, alone);
    }
}

#[test]
fn the_queue_gives_what_a_job_alone_gives() {
    let lm = model();
    for max_new in 0..7usize {
        let mut rng = Lcg::new(42);
        let mut g = Generation::new(&lm, "the ", max_new);
        while g.wants_token() {
            g.take(&lm, rng.next_fraction() as usize % lm.vocab.len());
        }
        assert_eq!(generate("the ", max_new, 42), g.text);
        assert!(generate("the ", 9, 42).starts_with(&g.text));
    }
    assert_eq!(MAX_BATCH, 8);
}
