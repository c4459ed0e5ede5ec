use free::sink::Await;
use free::source::Emit;
use free::trampoline::{done, more, Cont, Trampoline};

/// A source that yields `n`, `n - 1`, ..., `1` and ends with their sum
/// added to `sum`.
struct Count {
    n: u32,
    sum: u64,
}

enum SrcOp {
    Add(u64),
}

type Src = Trampoline<u64, Count, SrcOp>;

impl Emit<u32, u64, SrcOp> for Count {
    fn spec_split(self) -> (u32, Src) {
        self.split()
    }

    fn split(self) -> (u32, Src) {
        let total: u64 = self.sum + self.n as u64;
        let rest: Src = if self.n <= 1 {
            done(total)
        } else {
            more(Count { n: self.n - 1, sum: total })
        };
        (self.n, rest)
    }
}

impl Cont<u64, Count> for SrcOp {
    fn spec_apply(self, v: u64) -> Src {
        self.apply(v)
    }

    fn apply(self, v: u64) -> Src {
        match self {
            SrcOp::Add(k) => done(v + k),
        }
    }
}

/// A sink that takes `left` items and ends with their sum added to `acc`.
struct Summer {
    left: u32,
    acc: u64,
}

enum SinkOp {
    Double,
}

type Snk = Trampoline<u64, Summer, SinkOp>;

impl Await<u64, u64, SinkOp> for Summer {
    fn spec_feed(self, a: u64) -> Snk {
        self.feed(a)
    }

    fn feed(self, a: u64) -> Snk {
        if self.left <= 1 {
            done(self.acc + a)
        } else {
            more(Summer { left: self.left - 1, acc: self.acc + a })
        }
    }
}

impl Cont<u64, Summer> for SinkOp {
    fn spec_apply(self, v: u64) -> Snk {
        self.apply(v)
    }

    fn apply(self, v: u64) -> Snk {
        match self {
            SinkOp::Double => done(2 * v),
        }
    }
}

#[test]
fn source_yields_its_items_then_the_bound_value() {
    let mut t: Src = more::<u64, Count, SrcOp>(Count { n: 3, sum: 0 }).bind(SrcOp::Add(100));
    let mut items: Vec<u32> = Vec::new();
    let end: u64 = loop {
        match t.resume() {
            Ok(v) => break v,
            Err(s) => {
                assert_eq!(s.conts.len(), 1);
                let (a, rest) = s.next();
                items.push(a);
                t = rest;
            }
        }
    };
    assert_eq!(items, vec![3, 2, 1]);
    assert_eq!(end, 106);
}

#[test]
fn finished_source_yields_nothing() {
    let t: Src = done(7);
    assert!(matches!(t.bind(SrcOp::Add(1)).resume(), Ok(8)));
}

#[test]
fn sink_takes_what_it_is_fed_then_the_bound_continuation_runs() {
    let mut t: Snk = more::<u64, Summer, SinkOp>(Summer { left: 3, acc: 0 }).bind(SinkOp::Double);
    let mut inputs = vec![5u64, 6, 7].into_iter();
    let end: u64 = loop {
        match t.resume() {
            Ok(v) => break v,
            Err(s) => {
                let a = inputs.next().expect("the sink asked for more than three items");
                t = s.feed(a);
            }
        }
    };
    assert_eq!(end, 36);
    assert!(inputs.next().is_none());
}
