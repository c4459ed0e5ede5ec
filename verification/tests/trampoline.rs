use free::trampoline::{done, force, more, Cont, Thunk, Trampoline};
use num::BigInt;

/// The rest of a factorial: multiply `acc` by `n`, `n - 1`, ..., `3`.
struct Factorial {
    n: u64,
    acc: BigInt,
}

/// A continuation that never occurs.
enum Never {}

impl Thunk<BigInt, Never> for Factorial {
    fn spec_force(self) -> Trampoline<BigInt, Factorial, Never> {
        self.force()
    }

    fn force(self) -> Trampoline<BigInt, Factorial, Never> {
        factorial(self.n, self.acc)
    }
}

impl Cont<BigInt, Factorial> for Never {
    fn spec_apply(self, v: BigInt) -> Trampoline<BigInt, Factorial, Never> {
        self.apply(v)
    }

    fn apply(self, _v: BigInt) -> Trampoline<BigInt, Factorial, Never> {
        match self {}
    }
}

fn factorial(n: u64, acc: BigInt) -> Trampoline<BigInt, Factorial, Never> {
    if n <= 2 {
        done(acc)
    } else {
        let nb: BigInt = BigInt::from(n);
        more(Factorial { n: n - 1, acc: nb * acc })
    }
}

#[test]
fn welp() {
    let acc: BigInt = BigInt::from(1u64);
    println!("{}", factorial(1500, acc).run())
}

/// A small language of steps over `u64`.
#[derive(Debug)]
enum Step {
    /// Counts `n` down to zero, adding one to the accumulator each time.
    Countdown(u64, u64),
    /// Gives its value on the next force.
    Give(u64),
}

/// Continuations over `u64`.
#[derive(Debug)]
enum Op {
    Add(u64),
    Double,
    Finish,
    AddThenDouble(u64),
}

type Prog = Trampoline<u64, Step, Op>;

impl Thunk<u64, Op> for Step {
    fn spec_force(self) -> Prog {
        self.force()
    }

    fn force(self) -> Prog {
        match self {
            Step::Countdown(0, acc) => done(acc),
            Step::Countdown(n, acc) => more(Step::Countdown(n - 1, acc + 1)),
            Step::Give(v) => done(v),
        }
    }
}

impl Cont<u64, Step> for Op {
    fn spec_apply(self, v: u64) -> Prog {
        self.apply(v)
    }

    fn apply(self, v: u64) -> Prog {
        match self {
            Op::Add(k) => more(Step::Give(v + k)),
            Op::Double => done(2 * v),
            Op::Finish => done(v),
            Op::AddThenDouble(k) => Op::Add(k).apply(v).bind(Op::Double),
        }
    }
}

#[test]
fn done_runs_to_its_value() {
    let t: Prog = done(9);
    assert_eq!(t.run(), 9);
}

#[test]
fn more_runs_as_what_forcing_gives() {
    let t: Prog = more(Step::Countdown(5, 10));
    assert_eq!(t.run(), 15);
    let forced: Prog = force(|| Step::Countdown(5, 10).force());
    assert_eq!(forced.run(), 15);
}

#[test]
fn force_calls_the_thunk_once() {
    assert_eq!(force(|| 5i32), 5);
    let mut calls: u32 = 0;
    let got = force(|| {
        calls += 1;
        "value"
    });
    assert_eq!(got, "value");
    assert_eq!(calls, 1);
}

#[test]
fn bind_left_identity() {
    let t: Prog = done(4);
    assert_eq!(t.bind(Op::Add(3)).run(), 7);
    assert_eq!(Op::Add(3).apply(4).run(), 7);
}

#[test]
fn bind_right_identity() {
    let t: Prog = more(Step::Countdown(5, 10));
    assert_eq!(t.bind(Op::Finish).run(), 15);
}

#[test]
fn bind_associativity() {
    let left: Prog = done(4);
    let right: Prog = done(4);
    assert_eq!(left.bind(Op::Add(3)).bind(Op::Double).run(), 14);
    assert_eq!(right.bind(Op::AddThenDouble(3)).run(), 14);
}

#[test]
fn resume_of_done_is_its_value() {
    let t: Prog = done(9);
    assert!(matches!(t.resume(), Ok(9)));
}

#[test]
fn resume_stops_at_the_first_step_and_forcing_goes_on() {
    let t: Prog = more(Step::Give(3));
    let t = t.bind(Op::Double).bind(Op::Add(1));
    match t.resume() {
        Ok(_) => panic!("a suspended step was expected"),
        Err(s) => {
            assert!(matches!(s.thunk, Step::Give(3)));
            assert_eq!(s.conts.len(), 2);
            assert!(matches!(s.conts[0], Op::Add(1)));
            assert!(matches!(s.conts[1], Op::Double));
            assert_eq!(s.force().run(), 7);
        }
    }
}

#[test]
fn resume_applies_continuations_to_finished_values() {
    let t: Prog = done(5);
    assert!(matches!(t.bind(Op::Double).resume(), Ok(10)));
}

#[test]
fn bounce_keeps_values_and_hands_on_suspensions() {
    let t: Prog = done(1);
    assert!(matches!(t.bounce(|s| s.force()).resume(), Ok(1)));
    let t: Prog = more(Step::Give(6));
    let b = t.bind(Op::Add(1)).bounce(|s| s.force());
    assert_eq!(b.run(), 7);
}

#[test]
fn fold_picks_the_branch() {
    let t: Prog = done(1);
    assert_eq!(t.fold(|v| v + 1, |_| 0), 2);
    let t: Prog = more(Step::Give(6));
    assert_eq!(t.bind(Op::Double).fold(|v| v, |s| 100 + s.conts.len() as u64), 101);
}

#[test]
fn deep_left_nested_binds_run_in_constant_stack() {
    let mut t: Prog = done(0);
    for _ in 0..100_000u64 {
        t = t.bind(Op::Add(1));
    }
    assert_eq!(t.run(), 100_000);
}

#[test]
fn long_chains_of_steps_run_in_constant_stack() {
    let t: Prog = more(Step::Countdown(1_000_000, 0));
    assert_eq!(t.run(), 1_000_000);
}

#[test]
fn factorial_of_ten() {
    let acc: BigInt = BigInt::from(1u64);
    // the steps stop at 2, so this multiplies 10 * 9 * ... * 3
    assert_eq!(factorial(10, acc).run(), BigInt::from(1_814_400u64));
}

#[test]
fn resume_reassociates_nested_binds() {
    let nested: Prog = done(4);
    let single: Prog = done(4);
    let a = nested.bind(Op::Add(3)).bind(Op::Double).resume();
    let b = single.bind(Op::AddThenDouble(3)).resume();
    match (a, b) {
        (Err(s), Err(t)) => {
            assert!(matches!(s.thunk, Step::Give(7)));
            assert!(matches!(t.thunk, Step::Give(7)));
            assert_eq!(s.force().run(), 14);
            assert_eq!(t.force().run(), 14);
        }
        _ => panic!("both were expected to stop at the step that gives 7"),
    }
}

#[test]
fn resume_of_a_bound_step_keeps_the_continuation() {
    let t: Prog = more(Step::Give(2));
    match t.bind(Op::Double).resume() {
        Err(s) => {
            assert_eq!(s.conts.len(), 1);
            assert!(matches!(s.conts[0], Op::Double));
            assert_eq!(s.force().run(), 4);
        }
        Ok(_) => panic!("a suspended step was expected"),
    }
}

#[test]
fn forcing_a_suspension_with_nothing_waiting_is_forcing_its_step() {
    let t: Prog = more(Step::Give(3));
    match t.resume() {
        Err(s) => {
            assert_eq!(s.conts.len(), 0);
            assert!(matches!(s.force().resume(), Ok(3)));
        }
        Ok(_) => panic!("a suspended step was expected"),
    }
}
