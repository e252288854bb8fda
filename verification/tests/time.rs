use cortex_m_rtfm::time::{Duration, Instant, U32Ext};

#[test]
fn artificial_roundtrip_small() {
    let a = Instant::artificial(100);
    let b = a.add(32.cycles());
    assert_eq!(b, Instant::artificial(132));
    assert_eq!(b.duration_since(a), 32.cycles());
}

#[test]
fn add_wraps_around_counter() {
    let a = Instant::artificial(i32::MAX - 1);
    let d = 10u32.cycles();
    let b = a.add(d);
    // the counter wraps into negative territory, yet the difference is kept
    assert_eq!(b, Instant::artificial(i32::MIN + 8));
    assert_eq!(b.duration_since(a), d);
}

#[test]
fn sub_undoes_add() {
    let a = Instant::artificial(-5);
    let d = 1_000_000u32.cycles();
    assert_eq!(a.add(d).sub(d), a);
}

#[test]
fn ordering_is_wrap_safe() {
    let a = Instant::artificial(i32::MAX - 1);
    let b = a.add(10.cycles());
    // b lies after a even though its raw count is smaller
    assert!(a < b);
    assert!(b > a);
    assert!(a == a.add(0.cycles()));
}

#[test]
fn duration_arithmetic() {
    let d = 40u32.cycles().add(2u32.cycles());
    assert_eq!(d, Duration::from_cycles(42));
    assert_eq!(d.sub(2.cycles()).as_cycles(), 40);
}

#[test]
fn duration_since_exact_at_half_range_edge() {
    let a = Instant::artificial(0);
    let d = 0x7fff_ffffu32.cycles();
    let b = a.add(d);
    assert_eq!(b.duration_since(a), d);
}

#[test]
fn wrapping_duration_is_total() {
    let a = Instant::artificial(100);
    let b = Instant::artificial(40);
    // forward: same as duration_since
    assert_eq!(a.wrapping_duration_since(b), a.duration_since(b));
    assert_eq!(a.wrapping_duration_since(b), 60.cycles());
    // backward: the distance wraps around the counter
    assert_eq!(b.wrapping_duration_since(a), (u32::MAX - 59).cycles());
    // across the sign boundary
    let c = Instant::artificial(i32::MAX - 4);
    let d = c.add(10.cycles());
    assert_eq!(d.wrapping_duration_since(c), 10.cycles());
}
