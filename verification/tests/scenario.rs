use reactive_core::binding::FieldRef;
use reactive_core::error::ReactiveError;
use reactive_core::handle::{EffectHandle, Fetched, FlushStep, ReadSignal, Refresh, WriteSignal};
use reactive_core::keyed::PlanOp;
use reactive_core::keys::{remove_key, IdAllocator};
use reactive_core::model::Freshness;
use reactive_core::reconcile::KeyedList;
use reactive_core::runtime::Runtime;
use std::cell::RefCell;
use std::rc::Rc;

#[derive(Debug, PartialEq)]
enum Fault {
    Runtime(ReactiveError),
    Body(&'static str),
}

impl From<ReactiveError> for Fault {
    fn from(e: ReactiveError) -> Fault {
        Fault::Runtime(e)
    }
}

type Body = Rc<dyn Fn(&mut Host) -> Result<Option<i64>, Fault>>;

/// A host: it owns the bodies of memos and effects and runs them when the
/// runtime says so.
struct Host {
    rt: Runtime<i64>,
    bodies: Vec<Option<Body>>,
    runs: Vec<usize>,
    failures: Vec<(usize, Fault)>,
}

impl Host {
    fn new() -> Host {
        let mut rt = Runtime::new();
        let root = rt.create_scope();
        rt.enter_scope(root).unwrap();
        Host { rt, bodies: Vec::new(), runs: Vec::new(), failures: Vec::new() }
    }

    fn register(&mut self, id: usize, body: Body) {
        while self.bodies.len() <= id {
            self.bodies.push(None);
            self.runs.push(0);
        }
        self.bodies[id] = Some(body);
    }

    fn signal(&mut self, v: i64) -> (ReadSignal, WriteSignal) {
        self.rt.create_signal(v).unwrap()
    }

    /// Runs the body of the node whose evaluation has begun, and ends the
    /// evaluation whatever the body did.
    fn finish(&mut self, id: usize, body: &Body) {
        self.runs[id] += 1;
        let depth = self.rt.depth();
        match body(self) {
            Ok(Some(v)) => {
                self.rt.finish_memo(v);
            }
            Ok(None) => {
                self.rt.finish_effect();
            }
            Err(fault) => {
                self.failures.push((id, fault));
                if !self.rt.finish_effect() {
                    let held = self.rt.cached(id).copied().unwrap_or(0);
                    self.rt.finish_memo(held);
                }
            }
        }
        assert_eq!(self.rt.depth(), depth - 1);
    }

    fn memo(&mut self, f: impl Fn(&mut Host) -> Result<i64, Fault> + 'static) -> ReadSignal {
        let reader = self.rt.begin_memo().unwrap();
        let body: Body = Rc::new(move |h| f(h).map(Some));
        self.register(reader.id, body.clone());
        self.finish(reader.id, &body);
        reader
    }

    fn effect(&mut self, f: impl Fn(&mut Host) -> Result<(), Fault> + 'static) -> EffectHandle {
        let effect = self.rt.begin_effect().unwrap();
        let body: Body = Rc::new(move |h| f(h).map(|_| None));
        self.register(effect.id, body.clone());
        self.finish(effect.id, &body);
        effect
    }

    fn eval(&mut self, id: usize) {
        let body = self.bodies[id].clone().unwrap();
        self.finish(id, &body)
    }

    fn bring_up(&mut self, id: usize) -> Result<(), ReactiveError> {
        loop {
            match self.rt.refresh(id)? {
                Refresh::Fresh => return Ok(()),
                Refresh::Run(x) => self.eval(x),
                Refresh::Blocked(s) => self.bring_up(s)?,
            }
        }
    }

    fn get(&mut self, reader: ReadSignal) -> Result<i64, Fault> {
        loop {
            if let Fetched::Ready(v) = self.rt.read(reader)? {
                return Ok(*v);
            }
            self.bring_up(reader.id)?;
        }
    }

    fn peek(&mut self, reader: ReadSignal) -> Result<i64, Fault> {
        loop {
            if let Fetched::Ready(v) = self.rt.read_untracked(reader)? {
                return Ok(*v);
            }
            self.bring_up(reader.id)?;
        }
    }

    fn flush(&mut self) -> Result<(), ReactiveError> {
        loop {
            match self.rt.flush_next()? {
                FlushStep::Done => return Ok(()),
                FlushStep::Settled(_) => {}
                FlushStep::Run(x) => self.eval(x),
            }
        }
    }

    fn set(&mut self, writer: WriteSignal, v: i64) -> Result<(), Fault> {
        if self.rt.write(writer, v)? {
            self.flush()?;
        }
        Ok(())
    }

    fn change(&mut self, writer: WriteSignal, f: impl FnOnce(&i64) -> i64) -> Result<(), Fault> {
        if self.rt.update(writer, f)? {
            self.flush()?;
        }
        Ok(())
    }

    fn batch(&mut self, f: impl FnOnce(&mut Host) -> Result<(), Fault>) -> Result<(), Fault> {
        self.rt.batch_begin();
        let done = f(self);
        if self.rt.batch_end() {
            self.flush()?;
        }
        done
    }
}

fn log() -> Rc<RefCell<Vec<i64>>> {
    Rc::new(RefCell::new(Vec::new()))
}

#[test]
fn doubled_count_recomputes_once_per_write() {
    let mut h = Host::new();
    let (count, set_count) = h.signal(0);
    let double = h.memo(move |h| Ok(h.get(count)? * 2));
    let seen = log();
    let sink = seen.clone();
    let shown = h.effect(move |h| {
        let v = h.get(double)?;
        sink.borrow_mut().push(v);
        Ok(())
    });
    assert_eq!(h.get(double), Ok(0));
    assert_eq!(h.runs[double.id], 1);
    assert_eq!(*seen.borrow(), vec![0]);

    h.set(set_count, 3).unwrap();
    assert_eq!(h.get(double), Ok(6));
    assert_eq!(h.runs[double.id], 2);
    assert_eq!(h.rt.version(count.id), Some(1));
    assert_eq!(*seen.borrow(), vec![0, 6]);
    assert_eq!(h.runs[shown.id], 2);

    // the same value again: the version goes up, the memo recomputes to the
    // same value, and what reads the memo does not run
    h.set(set_count, 3).unwrap();
    assert_eq!(h.rt.version(count.id), Some(2));
    assert_eq!(h.get(double), Ok(6));
    assert_eq!(h.runs[double.id], 3);
    assert_eq!(h.runs[shown.id], 2);
    assert_eq!(*seen.borrow(), vec![0, 6]);
    assert!(!h.rt.has_pending());
}

#[test]
fn a_diamond_is_seen_consistent_and_once() {
    let mut h = Host::new();
    let (a, set_a) = h.signal(1);
    let seen = log();
    let plus = h.memo(move |h| Ok(h.get(a)? + 1));
    let twice = h.memo(move |h| Ok(h.get(a)? * 2));
    let chain = h.memo(move |h| Ok(h.get(plus)? * 10));
    let sink = seen.clone();
    let join = h.effect(move |h| {
        let v = h.get(a)? * 1_000_000 + h.get(chain)? * 1_000 + h.get(twice)?;
        sink.borrow_mut().push(v);
        Ok(())
    });
    assert_eq!(*seen.borrow(), vec![1_020_002]);
    h.set(set_a, 2).unwrap();
    assert_eq!(*seen.borrow(), vec![1_020_002, 2_030_004]);
    h.set(set_a, 5).unwrap();
    assert_eq!(*seen.borrow(), vec![1_020_002, 2_030_004, 5_060_010]);
    assert_eq!(h.runs[join.id], 3);
    assert_eq!(h.runs[plus.id], 3);
    assert_eq!(h.runs[twice.id], 3);
    assert_eq!(h.runs[chain.id], 3);
    assert!(h.failures.is_empty());
}

#[test]
fn writes_in_one_batch_run_each_computation_once() {
    let mut h = Host::new();
    let (a, set_a) = h.signal(1);
    let (b, set_b) = h.signal(10);
    let sum = h.memo(move |h| Ok(h.get(a)? + h.get(b)?));
    let seen = log();
    let sink = seen.clone();
    let shown = h.effect(move |h| {
        let v = h.get(sum)?;
        sink.borrow_mut().push(v);
        Ok(())
    });
    h.batch(|h| {
        h.set(set_a, 2)?;
        h.set(set_b, 20)?;
        h.set(set_a, 3)?;
        assert_eq!(h.runs[sum.id], 1);
        Ok(())
    })
    .unwrap();
    assert_eq!(*seen.borrow(), vec![11, 23]);
    assert_eq!(h.runs[sum.id], 2);
    assert_eq!(h.runs[shown.id], 2);
}

#[test]
fn a_memo_read_inside_a_batch_is_brought_up_to_date_first() {
    let mut h = Host::new();
    let (a, set_a) = h.signal(1);
    let square = h.memo(move |h| {
        let v = h.get(a)?;
        Ok(v * v)
    });
    let above = h.memo(move |h| Ok(h.get(square)? + 1));
    h.batch(|h| {
        h.set(set_a, 4)?;
        assert_eq!(h.rt.state(above.id), Some(Freshness::Stale));
        assert_eq!(h.get(above), Ok(17));
        assert_eq!(h.peek(square), Ok(16));
        assert!(!h.rt.has_pending());
        Ok(())
    })
    .unwrap();
    assert_eq!(h.runs[square.id], 2);
    assert_eq!(h.runs[above.id], 2);
}

#[test]
fn a_constant_memo_shields_what_reads_it() {
    let mut h = Host::new();
    let (a, set_a) = h.signal(1);
    let parity = h.memo(move |h| Ok(h.get(a)? % 2));
    let label = h.memo(move |h| Ok(h.get(parity)? + 100));
    let shown = h.effect(move |h| h.get(label).map(|_| ()));
    h.set(set_a, 3).unwrap();
    h.set(set_a, 5).unwrap();
    assert_eq!(h.runs[parity.id], 3);
    assert_eq!(h.runs[label.id], 1);
    assert_eq!(h.runs[shown.id], 1);
    h.set(set_a, 6).unwrap();
    assert_eq!(h.runs[parity.id], 4);
    assert_eq!(h.runs[label.id], 2);
    assert_eq!(h.runs[shown.id], 2);
    assert_eq!(h.get(label), Ok(100));
}

#[test]
fn an_untracked_read_in_a_memo_does_not_wake_it() {
    let mut h = Host::new();
    let (a, set_a) = h.signal(1);
    let (b, set_b) = h.signal(10);
    let m = h.memo(move |h| Ok(h.get(a)? + h.peek(b)?));
    assert_eq!(h.get(m), Ok(11));
    h.set(set_b, 20).unwrap();
    assert_eq!(h.runs[m.id], 1);
    assert_eq!(h.rt.state(m.id), Some(Freshness::Clean));
    assert_eq!(h.get(m), Ok(11));
    h.set(set_a, 2).unwrap();
    assert_eq!(h.get(m), Ok(22));
    assert_eq!(h.runs[m.id], 2);
    assert_eq!(h.rt.sources(m.id), vec![a.id]);
}

#[test]
fn a_write_from_an_effect_joins_the_flush_in_progress() {
    let mut h = Host::new();
    let (a, set_a) = h.signal(1);
    let (b, set_b) = h.signal(0);
    let seen = log();
    let sink = seen.clone();
    let mirror = h.effect(move |h| {
        let v = h.get(a)?;
        h.set(set_b, v + 100)
    });
    let shown = h.effect(move |h| {
        let v = h.get(b)?;
        sink.borrow_mut().push(v);
        Ok(())
    });
    assert_eq!(*seen.borrow(), vec![101]);
    h.set(set_a, 2).unwrap();
    assert_eq!(*seen.borrow(), vec![101, 102]);
    assert_eq!(h.runs[mirror.id], 2);
    assert_eq!(h.runs[shown.id], 2);
    assert!(h.failures.is_empty());
}

#[test]
fn an_effect_that_writes_what_it_reads_is_told_so() {
    let mut h = Host::new();
    let (a, set_a) = h.signal(1);
    let e = h.effect(move |h| {
        let v = h.get(a)?;
        h.set(set_a, v + 1)
    });
    assert_eq!(h.failures, vec![(e.id, Fault::Runtime(ReactiveError::CyclicDependency))]);
    assert_eq!(h.peek(a), Ok(1));
    assert_eq!(h.rt.state(e.id), Some(Freshness::Clean));
}

#[test]
fn a_failing_effect_does_not_stop_the_others() {
    let mut h = Host::new();
    let (a, set_a) = h.signal(1);
    let seen = log();
    let broken = h.effect(move |h| {
        if h.get(a)? > 1 {
            Err(Fault::Body("no"))
        } else {
            Ok(())
        }
    });
    let sink = seen.clone();
    let sound = h.effect(move |h| {
        let v = h.get(a)?;
        sink.borrow_mut().push(v);
        Ok(())
    });
    h.set(set_a, 2).unwrap();
    assert_eq!(h.failures, vec![(broken.id, Fault::Body("no"))]);
    assert_eq!(*seen.borrow(), vec![1, 2]);
    h.set(set_a, 3).unwrap();
    assert_eq!(h.failures.len(), 2);
    assert_eq!(*seen.borrow(), vec![1, 2, 3]);
    assert_eq!(h.runs[sound.id], 3);
    assert_eq!(h.runs[broken.id], 3);
}

#[test]
fn an_effect_that_disposes_its_scope_does_not_disturb_the_queue() {
    let mut h = Host::new();
    let (a, set_a) = h.signal(1);
    let seen = log();
    let doomed = h.rt.create_scope();
    h.rt.enter_scope(doomed).unwrap();
    let suicidal = h.effect(move |h| {
        if h.get(a)? > 1 {
            h.rt.dispose_scope(doomed)?;
        }
        Ok(())
    });
    let sink = seen.clone();
    let sibling = h.effect(move |h| {
        let v = h.get(a)?;
        sink.borrow_mut().push(-v);
        Ok(())
    });
    h.rt.exit_scope();
    let sink = seen.clone();
    let other = h.effect(move |h| {
        let v = h.get(a)?;
        sink.borrow_mut().push(v);
        Ok(())
    });
    let sink = seen.clone();
    let last = h.effect(move |h| {
        let v = h.get(a)?;
        sink.borrow_mut().push(v * 10);
        Ok(())
    });
    assert_eq!(*seen.borrow(), vec![-1, 1, 10]);
    h.set(set_a, 2).unwrap();
    assert_eq!(*seen.borrow(), vec![-1, 1, 10, 2, 20]);
    assert_eq!(h.runs[suicidal.id], 2);
    assert_eq!(h.runs[sibling.id], 1);
    assert_eq!(h.runs[other.id], 2);
    assert_eq!(h.runs[last.id], 2);
    h.set(set_a, 3).unwrap();
    assert_eq!(*seen.borrow(), vec![-1, 1, 10, 2, 20, 3, 30]);
    assert_eq!(h.runs[suicidal.id], 2);
    assert!(h.failures.is_empty());
}

/// The counters of a list that grows and shrinks: each item has a key and a
/// counter of its own, which survives whatever happens to the other items.
struct Counters {
    ids: IdAllocator,
    order: Vec<u64>,
    list: KeyedList,
    cells: Vec<(u64, ReadSignal, WriteSignal)>,
}

impl Counters {
    fn new(h: &mut Host, initial: usize) -> Counters {
        let mut ids = IdAllocator::new(0);
        let order = ids.allocate_many(initial);
        let list = KeyedList::new(&mut h.rt);
        let mut counters = Counters { ids, order, list, cells: Vec::new() };
        counters.sync(h);
        counters
    }

    /// Brings the items in line with the key order.
    fn sync(&mut self, h: &mut Host) -> Vec<PlanOp> {
        let plan = self.list.reconcile(&mut h.rt, &self.order).unwrap();
        for op in &plan {
            match *op {
                PlanOp::Remove { key, .. } => self.cells.retain(|c| c.0 != key),
                PlanOp::Insert { key, scope, .. } => {
                    h.rt.enter_scope(scope).unwrap();
                    let (r, w) = h.rt.create_signal(key as i64 + 1).unwrap();
                    h.rt.exit_scope();
                    self.cells.push((key, r, w));
                }
                PlanOp::Reuse { .. } => {}
            }
        }
        plan
    }

    fn add(&mut self, h: &mut Host) -> u64 {
        let key = self.ids.allocate();
        self.order.push(key);
        self.sync(h);
        key
    }

    fn remove(&mut self, h: &mut Host, key: u64) {
        self.order = remove_key(&self.order, key);
        self.sync(h);
    }

    fn cell(&self, key: u64) -> (ReadSignal, WriteSignal) {
        let c = self.cells.iter().find(|c| c.0 == key).unwrap();
        (c.1, c.2)
    }

    fn counts(&self, h: &mut Host) -> Vec<(u64, i64)> {
        self.order.iter().map(|k| (*k, h.peek(self.cell(*k).0).unwrap())).collect()
    }
}

#[test]
fn counters_survive_edits_to_the_list() {
    let mut h = Host::new();
    let mut counters = Counters::new(&mut h, 3);
    assert_eq!(counters.counts(&mut h), vec![(0, 1), (1, 2), (2, 3)]);
    assert_eq!(counters.add(&mut h), 3);
    assert_eq!(counters.counts(&mut h), vec![(0, 1), (1, 2), (2, 3), (3, 4)]);

    let (second, set_second) = counters.cell(1);
    h.change(set_second, |n| n + 1).unwrap();
    h.change(set_second, |n| n + 1).unwrap();
    let (first, _) = counters.cell(0);
    counters.remove(&mut h, 0);
    assert_eq!(counters.counts(&mut h), vec![(1, 4), (2, 3), (3, 4)]);
    assert_eq!(h.peek(second), Ok(4));
    assert_eq!(h.peek(first), Err(Fault::Runtime(ReactiveError::UseAfterDispose)));

    assert_eq!(counters.add(&mut h), 4);
    counters.remove(&mut h, 2);
    counters.remove(&mut h, 2);
    assert_eq!(counters.counts(&mut h), vec![(1, 4), (3, 4), (4, 5)]);
    assert_eq!(counters.list.len(), 3);
}

#[test]
fn an_uncontrolled_field_is_read_when_the_form_is_submitted() {
    let mut h = Host::new();
    let (name, set_name) = h.signal(0);
    let shown = h.effect(move |h| h.get(name).map(|_| ()));
    let mut input = FieldRef::new();
    // what the host holds for each field it has materialised
    let mut fields: Vec<i64> = Vec::new();

    let submit = |h: &mut Host, input: &FieldRef, fields: &Vec<i64>| -> Result<(), Fault> {
        let identity = input.identity()?;
        h.set(set_name, fields[identity as usize])
    };
    assert_eq!(submit(&mut h, &input, &fields), Err(Fault::Runtime(ReactiveError::MissingBinding)));
    assert_eq!(h.peek(name), Ok(0));

    fields.push(41);
    input.attach(0);
    // the field changes without the runtime hearing of it
    fields[0] = 42;
    assert_eq!(h.runs[shown.id], 1);
    assert_eq!(submit(&mut h, &input, &fields), Ok(()));
    assert_eq!(h.peek(name), Ok(42));
    assert_eq!(h.runs[shown.id], 2);
}

#[test]
fn a_controlled_field_follows_every_change() {
    let mut h = Host::new();
    let (value, set_value) = h.signal(1);
    let field = log();
    let sink = field.clone();
    h.effect(move |h| {
        let v = h.get(value)?;
        sink.borrow_mut().push(v);
        Ok(())
    });
    for typed in [2, 3, 3, 4] {
        h.set(set_value, typed).unwrap();
    }
    assert_eq!(*field.borrow(), vec![1, 2, 3, 3, 4]);
    assert_eq!(h.peek(value), Ok(4));
}

#[test]
fn values_need_not_be_numbers() {
    let mut rt: Runtime<String> = Runtime::new();
    let root = rt.create_scope();
    rt.enter_scope(root).unwrap();
    let (name, set_name) = rt.create_signal("uncontrolled".to_string()).unwrap();
    let shout = rt.begin_memo().unwrap();
    let seen = match rt.read(name) {
        Ok(Fetched::Ready(v)) => v.to_uppercase(),
        _ => unreachable!(),
    };
    assert_eq!(rt.finish_memo(seen), Some(true));
    assert_eq!(rt.read(shout), Ok(Fetched::Ready(&"UNCONTROLLED".to_string())));

    assert_eq!(rt.update(set_name, |s| format!("{}!", s)), Ok(true));
    assert_eq!(rt.read_untracked(name), Ok(Fetched::Ready(&"uncontrolled!".to_string())));
    assert_eq!(rt.flush_next(), Ok(FlushStep::Run(shout.id)));
    assert_eq!(rt.finish_memo("UNCONTROLLED".to_string()), Some(false));
    assert_eq!(rt.flush_next(), Ok(FlushStep::Done));
    assert_eq!(rt.cached(shout.id), Some(&"UNCONTROLLED".to_string()));
}
