use qui::utils::ModInt;
use qui::utils::Scroll;
use qui::utils::TabsState;

#[test]
fn test_scroll() {
    let mut scroll = Scroll::new(7);
    scroll.dec();
    assert_eq!(scroll.val(), 7);
    scroll.inc();
    assert_eq!(scroll.val(), 0);
}

#[test]
fn test_add() {
    let tests: [(u64, (u64, u64), u64); 2] = [(7, (3, 4), 0), (7, (4, 5), 2)];

    for (p, (lhs, rhs), expected) in tests.iter() {
        let p = *p;
        let lhs = *lhs;
        let rhs = *rhs;

        let lhs = ModInt::new(p, lhs);
        let rhs = ModInt::new(p, rhs);

        assert_eq!((lhs + rhs).val(), *expected);
    }
}

#[test]
fn test_sub() {
    let tests: [(u64, (u64, u64), u64); 2] = [(7, (3, 4), 6), (7, (5, 4), 1)];

    for (p, (lhs, rhs), expected) in tests.iter() {
        let p = *p;
        let lhs = *lhs;
        let rhs = *rhs;

        let lhs = ModInt::new(p, lhs);
        let rhs = ModInt::new(p, rhs);

        assert_eq!((lhs - rhs).val(), *expected);
    }
}

#[test]
fn scroll_moves_within_its_range() {
    let mut scroll = Scroll::new(2);
    assert_eq!(scroll.val(), 0);
    scroll.inc();
    assert_eq!(scroll.val(), 1);
    scroll.inc();
    assert_eq!(scroll.val(), 2);
    scroll.inc();
    assert_eq!(scroll.val(), 0);
    scroll.dec();
    assert_eq!(scroll.val(), 2);
    scroll.dec();
    assert_eq!(scroll.val(), 1);
}

#[test]
fn scroll_with_maximum_zero_stays() {
    let mut scroll = Scroll::new(0);
    scroll.inc();
    assert_eq!(scroll.val(), 0);
    scroll.dec();
    assert_eq!(scroll.val(), 0);
}

#[test]
fn modint_inc_and_dec_wrap() {
    let mut m = ModInt::new(5, 4);
    m.inc();
    assert_eq!(m.val(), 0);
    m.dec();
    assert_eq!(m.val(), 4);
    m.dec();
    assert_eq!(m.val(), 3);
}

#[test]
fn tabs_cycle_in_both_directions() {
    let mut tabs = TabsState::new(vec!["a", "b", "c"]);
    assert_eq!(tabs.index, 0);
    tabs.previous();
    assert_eq!(tabs.index, 2);
    tabs.next();
    assert_eq!(tabs.index, 0);
    tabs.next();
    assert_eq!(tabs.index, 1);
    tabs.previous();
    assert_eq!(tabs.index, 0);
}
