use free::trampoline;
use free::{sink, source};

#[test]
fn source_map_keeps_the_output() {
    assert_eq!(source::map((1u8, 2u32), |x| x * 10), (1u8, 20u32));
    assert_eq!(source::map(("a", 7u32), |x| x > 5), ("a", true));
}

#[test]
fn sink_map_composes_after_the_consumer() {
    let m = |a: u32| a + 1;
    let r = sink::map(m, |x: u32| x * 2);
    assert_eq!(r(5), 12);
}

#[test]
fn lazy_map_composes_after_the_deferred_value() {
    let r = trampoline::map(|| 3u32, |x: u32| x + 1);
    assert_eq!(r(), 4);
}

#[test]
fn source_map_identity_and_composition() {
    let m = (4u8, 10u32);
    assert_eq!(source::map(m, |x| x), m);
    let twice = source::map(source::map(m, |x| x + 1), |y| y * 3);
    let once = source::map(m, |x| (x + 1) * 3);
    assert_eq!(twice, once);
}

#[test]
fn sink_map_identity_and_composition() {
    let id = sink::map(|a: u32| a * 2, |x: u32| x);
    assert_eq!(id(21), 42);
    let twice = sink::map(sink::map(|a: u32| a * 2, |x: u32| x + 1), |y: u32| y * 3);
    let once = sink::map(|a: u32| a * 2, |x: u32| (x + 1) * 3);
    assert_eq!(twice(5), once(5));
}
