use sexpr_sched::parse::parse_sexpr;
use sexpr_sched::sched::{schedule_to_cpus, Cpu};
use sexpr_sched::tree::{OpType, Sexpr};

fn schedule(text: &str, ncpus: usize) -> (Sexpr, Vec<Option<Cpu>>, Vec<usize>, usize) {
    let mut e = parse_sexpr(text).unwrap();
    e.update_depth_cost(1);
    let (table, loads, makespan) = schedule_to_cpus(&e, ncpus);
    (e, table, loads, makespan)
}

fn internal_count(e: &Sexpr) -> usize {
    let own = if matches!(e.op, OpType::Int(_)) { 0 } else { 1 };
    own + e.sexprs.iter().map(internal_count).sum::<usize>()
}

fn check_valid(e: &Sexpr, root: &Sexpr, table: &[Option<Cpu>], ncpus: usize) {
    match e.op {
        OpType::Int(_) => assert!(table[e.id].is_none(), "literal {} scheduled", e.id),
        _ => {
            let a = table[e.id].expect("internal node unscheduled");
            assert!(a.cpu < ncpus);
            assert_eq!(a.end, a.start + e.op.cost());
            for c in &e.sexprs {
                if c.op.cost() > 0 {
                    let b = table[c.id].expect("child unscheduled");
                    assert!(a.start >= b.end, "starts before child ends");
                }
            }
        }
    }
    for c in &e.sexprs {
        check_valid(c, root, table, ncpus);
    }
}

#[test]
fn every_internal_node_scheduled_once_literals_never() {
    let (e, table, _loads, _mk) = schedule("(+ (* 4 4) (* 2 (- 7 5)) 1)", 2);
    let assigned = table.iter().filter(|a| a.is_some()).count();
    assert_eq!(assigned, internal_count(&e));
    check_valid(&e, &e, &table, 2);
}

#[test]
fn no_overlap_on_any_worker() {
    for n in 1..5 {
        let (_e, table, _loads, _mk) =
            schedule("(+ (* 2 1) (+ 8 8) (- (+ 4 3 2 1) (* 3 3) (* 2 2)) (* 5 7))", n);
        for w in 0..n {
            let mut slots: Vec<(usize, usize)> = table
                .iter()
                .flatten()
                .filter(|a| a.cpu == w)
                .map(|a| (a.start, a.end))
                .collect();
            slots.sort();
            for pair in slots.windows(2) {
                assert!(pair[0].1 <= pair[1].0, "overlap on worker {}", w);
            }
        }
    }
}

#[test]
fn makespan_at_least_critical_path() {
    for (n, s) in [
        (1, "(+ (* 4 4) (* 2 (- 7 5)) 1)"),
        (2, "(+ (* 4 4) (* 2 (- 7 5)) 1)"),
        (2, "(* 10 (- 0 1))"),
        (3, "(+ (- 6 1) (+ 0 1 1) (- 7 2) (* 3 4 5) (- 3 1) (+ 2) (- 0 10))"),
        (2, "(+ (- (* (+ (- (* 1))))))"),
    ] {
        let crit = parse_sexpr(s).unwrap().network_cost();
        let (_e, _t, _loads, mk) = schedule(s, n);
        assert!(mk >= crit, "makespan {} beat critical path {}", mk, crit);
    }
}

#[test]
fn makespan_at_least_total_work_over_workers() {
    for n in 1..5 {
        let s = "(+ (* 2 1) (+ 8 8) (- (+ 4 3 2 1) (* 3 3) (* 2 2)) (* 5 7))";
        let work = parse_sexpr(s).unwrap().total_work();
        let (_e, _t, loads, mk) = schedule(s, n);
        assert!(n * mk >= work);
        assert_eq!(loads.iter().sum::<usize>(), work);
        assert_eq!(loads.iter().max().copied().unwrap_or(0), mk);
    }
}

#[test]
fn more_workers_help_on_the_sample() {
    // the scenario the design calls out: three workers must not lose to two
    let s = "(* 2 (+ (- 10 9) (- 3 (* 2 1)) ) (+ (- 10 9) (- 3 (* 2 1))))";
    let (_e2, _t2, _l2, mk2) = schedule(s, 2);
    let (_e3, _t3, _l3, mk3) = schedule(s, 3);
    assert!(mk3 <= mk2, "makespan rose from {} to {} with a third worker", mk2, mk3);
}

#[test]
fn more_workers_never_hurt_on_the_samples() {
    for s in [
        "(+ (* 4 4) (* 2 (- 7 5)) 1)",
        "10",
        "(* 10 (- 0 1))",
        "(- (+ 10 10) -5 0)",
        "(+ (- (* (+ (- (* 1))))))",
        "(* 2 (+ (- 10 9) (- 3 (* 2 1))) (+ (- 10 9) (- 3 (* 2 1))))",
        "(+ (* 2 1) (+ 8 8) (- (+ 4 3 2 1) (* 3 3) (* 2 2)) (* 5 7))",
        "(- (+ (+ 3 3) (- 3 3) (+ 3 3) (- 3 3)) (* 2 2))",
        "(+ (- 6 1) (+ 0 1 1) (- 7 2) (* 3 4 5) (- 3 1) (+ 2) (- 0 10))",
    ] {
        let mut prev = usize::MAX;
        for n in 1..6 {
            let (_e, _t, _l, mk) = schedule(s, n);
            assert!(mk <= prev, "{}: makespan rose from {} to {} at {} workers", s, prev, mk, n);
            prev = mk;
        }
    }
}

#[test]
fn schedule_is_deterministic() {
    let s = "(+ (* 2 1) (+ 8 8) (- (+ 4 3 2 1) (* 3 3) (* 2 2)) (* 5 7))";
    for n in 1..4 {
        let (_e1, t1, l1, m1) = schedule(s, n);
        let (_e2, t2, l2, m2) = schedule(s, n);
        assert_eq!(t1, t2);
        assert_eq!(l1, l2);
        assert_eq!(m1, m2);
    }
}

#[test]
fn single_literal_schedules_nothing() {
    let (_e, table, loads, mk) = schedule("10", 2);
    assert!(table.iter().all(|a| a.is_none()));
    assert_eq!(loads, vec![0, 0]);
    assert_eq!(mk, 0);
}

#[test]
fn one_worker_serializes_all_work() {
    let s = "(+ (* 4 4) (* 2 (- 7 5)) 1)";
    let work = parse_sexpr(s).unwrap().total_work();
    let (_e, _t, loads, mk) = schedule(s, 1);
    assert_eq!(mk, work);
    assert_eq!(loads, vec![work]);
}
