use sexpr_sched::parse::parse_sexpr;

fn calc(s: &str) -> (i64, usize) {
    let sexpr = parse_sexpr(s).unwrap();
    (sexpr.interpret().unwrap(), sexpr.network_cost())
}

#[test]
fn calc1() {
    assert_eq!(calc("(+ (* 4 4) (* 2 (- 7 5)) 1)"), (21, 15));
}

#[test]
fn calc2() {
    assert_eq!(calc("10"), (10, 0));
}

#[test]
fn calc3() {
    assert_eq!(calc("(* 10 (- 0 1))"), (-10, 13));
}

#[test]
fn calc4() {
    assert_eq!(calc("(- (+ 10 10) -5 0)"), (25, 5));
}

#[test]
fn calc5() {
    assert_eq!(calc("(+ (- (* (+ (- (* 1))))))"), (1, 30));
}

#[test]
fn calc6() {
    assert_eq!(calc("(* 2 (+ (- 10 9) (- 3 (* 2 1))) (+ (- 10 9) (- 3 (* 2 1))))"), (8, 25));
}

#[test]
fn calc7() {
    assert_eq!(calc("(+ (* 2 1) (+ 8 8) (- (+ 4 3 2 1) (* 3 3) (* 2 2)) (* 5 7))"), (50, 15));
}

#[test]
fn calc8() {
    assert_eq!(calc("(- (+ (+ 3 3) (- 3 3) (+ 3 3) (- 3 3)) (* 2 2))"), (8, 13));
}

#[test]
fn calc9() {
    assert_eq!(calc("(+ (- 6 1) (+ 0 1 1) (- 7 2) (* 3 4 5) (- 3 1) (+ 2) (- 0 10))"), (66, 12));
}
