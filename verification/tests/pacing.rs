use playout::pacing::wait_micros;
use playout::rational::Rational;

#[test]
fn packets_wait_for_their_time() {
    assert_eq!(wait_micros(Some(50), Rational(1, 25), 500_000), 1_500_000);
    assert_eq!(wait_micros(Some(50), Rational(1, 25), 2_000_000), 0);
    assert_eq!(wait_micros(Some(50), Rational(1, 25), 9_000_000), 0);
}

#[test]
fn packets_without_a_time_do_not_wait() {
    assert_eq!(wait_micros(None, Rational(1, 25), 0), 0);
    assert_eq!(wait_micros(Some(-5), Rational(1, 25), 0), 0);
    assert_eq!(wait_micros(Some(5), Rational(1, 0), 0), 0);
}
