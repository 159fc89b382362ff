use algos::min_stack::MinStack;

#[test]
fn min_stack_tracks_the_minimum() {
    let mut st = MinStack::new();
    st.push(-2);
    st.push(0);
    st.push(-3);
    assert_eq!(st.get_min(), -3);
    st.pop();
    assert_eq!(st.top(), 0);
    assert_eq!(st.get_min(), -2);
}

#[test]
fn min_stack_handles_duplicate_minima() {
    let mut st = MinStack::new();
    st.push(1);
    st.push(1);
    st.push(5);
    assert_eq!(st.get_min(), 1);
    st.pop();
    st.pop();
    assert_eq!(st.get_min(), 1);
    assert_eq!(st.top(), 1);
}

#[test]
fn min_stack_pop_on_empty_is_harmless() {
    let mut st = MinStack::new();
    st.pop();
    st.push(9);
    assert_eq!(st.top(), 9);
    assert_eq!(st.get_min(), 9);
}
