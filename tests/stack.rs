use algs4_rs::{LinkedStack, VecStack};

const LIST: [&str; 14] = [
    "to", "be", "or", "not", "to", "-", "be", "-", "-", "that", "-", "-", "-", "is",
];

fn linked_to_string(st: &LinkedStack<&str>) -> String {
    let mut s = String::new();
    let mut it = st.iter();
    while let Some(x) = it.next() {
        s.push_str(x);
        s.push(' ');
    }
    s
}

fn vec_to_string(st: &VecStack<&str>) -> String {
    let mut s = String::new();
    let mut it = st.iter();
    while let Some(x) = it.next() {
        s.push_str(x);
        s.push(' ');
    }
    s
}

#[test]
fn linked_stack_of_str() {
    let mut st = LinkedStack::new();
    let list = LIST;
    let mut popped = Vec::new();
    for item in list {
        if item != "-" {
            st.push(item);
        } else if !st.is_empty() {
            popped.push(st.pop().unwrap());
        }
    }
    let popped_str = popped.join(" ");
    let stack_len = format!("({} left on stack)", st.len());
    let output = format!("{} {}", popped_str, stack_len);
    assert_eq!(output, "to be not that or be (2 left on stack)");
    assert_eq!(linked_to_string(&st), "is to ");
}

#[test]
fn vec_stack_of_str() {
    let mut st = VecStack::new();
    let list = LIST;
    let mut popped = Vec::new();
    for item in list {
        if item != "-" {
            st.push(item);
        } else if !st.is_empty() {
            popped.push(st.pop().unwrap());
        }
    }
    let popped_str = popped.join(" ");
    let stack_len = format!("({} left on stack)", st.len());
    let output = format!("{} {}", popped_str, stack_len);
    assert_eq!(output, "to be not that or be (2 left on stack)");
    assert_eq!(vec_to_string(&st), "is to ");
}

#[test]
fn stacks_peek_and_clone() {
    let mut ls = LinkedStack::new();
    let mut vs = VecStack::new();
    assert_eq!(ls.peek(), None);
    assert_eq!(vs.peek(), None);
    ls.push(1);
    ls.push(2);
    vs.push(1);
    vs.push(2);
    assert_eq!(ls.peek(), Some(&2));
    assert_eq!(vs.peek(), Some(&2));
    let mut copy = ls.clone();
    assert_eq!(copy.pop(), Some(2));
    assert_eq!(ls.len(), 2);
    assert_eq!(copy.len(), 1);
    assert_eq!(ls.pop(), Some(2));
    assert_eq!(ls.pop(), Some(1));
    assert_eq!(ls.pop(), None);
}

#[test]
fn long_linked_lists_drop_without_recursion() {
    let mut st = LinkedStack::new();
    for i in 0..1_000_000u32 {
        st.push(i);
    }
    assert_eq!(st.len(), 1_000_000);
    drop(st);
    let mut bag = algs4_rs::LinkedBag::new();
    let mut qu = algs4_rs::LinkedQueue::new();
    for i in 0..1_000_000u32 {
        bag.add(i);
        qu.enqueue(i);
    }
    assert_eq!(qu.dequeue(), Some(0));
    drop(bag);
    drop(qu);
}
