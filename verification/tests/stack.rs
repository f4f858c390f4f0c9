use offsides::{CloseStep, IndentStack};

#[test]
fn empty_stack_is_none() {
    let s = IndentStack::default();
    assert_eq!(s.step(0), CloseStep::NoAction);
    assert_eq!(s.step(99), CloseStep::NoAction);
}

#[test]
fn deeper_is_none() {
    let mut s = IndentStack::default();
    s.push(2);
    assert_eq!(s.step(4), CloseStep::NoAction);
}

#[test]
fn equal_is_separator() {
    let mut s = IndentStack::default();
    s.push(2);
    assert_eq!(s.step(2), CloseStep::Separator);
}

#[test]
fn shallower_is_pop() {
    let mut s = IndentStack::default();
    s.push(4);
    assert_eq!(s.step(2), CloseStep::Pop);
}
