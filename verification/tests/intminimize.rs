use conjecture::intminimize::minimize_integer;

fn non_failing_minimize<F>(start: u64, criterion: F) -> u64
where
    F: Fn(u64) -> bool,
{
    let mut best = start;

    loop {
        let ran: Result<u64, ()> = minimize_integer(best, |x| Ok(criterion(x)));
        let result = ran.unwrap();
        assert!(result <= best);
        if result == best {
            return best;
        }
        best = result;
    }
}

#[test]
fn minimize_down_to() {
    let n = non_failing_minimize(100, |x| x >= 10);
    assert_eq!(n, 10);
}

#[test]
fn unset_relevant_bits() {
    let x = 0b101010101010;
    let y = 0b111111111111;
    let n = non_failing_minimize(y, |k| k & x == x);
    assert_eq!(n, x);
}

#[test]
fn sort_bits() {
    let x: u64 = 0b1011011011000111;
    let y: u64 = 0b0000001111111111;
    let c = x.count_ones();
    assert_eq!(c, y.count_ones());

    let n = non_failing_minimize(x, |k| k.count_ones() == c);
    assert_eq!(y, n);
}

#[test]
fn minimize_is_idempotent_for_monotone_criteria() {
    let first: Result<u64, ()> = minimize_integer(100, |x| Ok(x >= 10));
    let v = first.unwrap();
    assert_eq!(v, 10);
    let second: Result<u64, ()> = minimize_integer(v, |x| Ok(x >= 10));
    assert_eq!(second.unwrap(), v);
}

#[test]
fn a_second_run_may_descend_further_for_non_monotone_criteria() {
    // the criterion accepts everything from 90 up, plus the lone value 45:
    // the first run ends at the local boundary 90, and only a second run,
    // probing 90 >> 1, can fall to 45
    let q = |v: u64| Ok::<bool, ()>(v >= 90 || v == 45);
    let first = minimize_integer(100, q).unwrap();
    assert_eq!(first, 90);
    let second = minimize_integer(first, q).unwrap();
    assert_eq!(second, 45);
}

#[test]
fn minimize_zero_needs_no_probes() {
    let ran: Result<u64, ()> = minimize_integer(0, |_x| Err(()));
    assert_eq!(ran.unwrap(), 0);
}

#[test]
fn minimize_propagates_errors() {
    let ran: Result<u64, &'static str> = minimize_integer(100, |_x| Err("boom"));
    assert!(ran.is_err());
}
