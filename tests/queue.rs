use algs4_rs::{LinkedQueue, ResizingQueue, SVecQue};

const LIST: [&str; 14] = [
    "to", "be", "or", "not", "to", "-", "be", "-", "-", "that", "-", "-", "-", "is",
];

fn linked_items<'a>(qu: &LinkedQueue<&'a str>) -> Vec<&'a str> {
    let mut out = Vec::new();
    let mut it = qu.iter();
    while let Some(x) = it.next() {
        out.push(*x);
    }
    out
}

fn resizing_items<'a>(qu: &ResizingQueue<&'a str>) -> Vec<&'a str> {
    let mut out = Vec::new();
    let mut it = qu.iter();
    while let Some(x) = it.next() {
        out.push(*x);
    }
    out
}

fn svecque_items<'a>(qu: &SVecQue<&'a str>) -> Vec<&'a str> {
    let mut out = Vec::new();
    let mut it = qu.iter();
    while let Some(x) = it.next() {
        out.push(*x);
    }
    out
}

fn joined(items: Vec<&str>) -> String {
    let mut s = String::new();
    for x in items {
        s.push_str(x);
        s.push(' ');
    }
    s
}

#[test]
fn linked_queue_of_str() {
    let mut qu: LinkedQueue<&str> = LinkedQueue::new();
    assert_eq!(linked_items(&qu).len(), 0);
    let list = LIST;
    let mut popped = Vec::new();
    for item in list {
        if item != "-" {
            qu.enqueue(item);
        } else if !qu.is_empty() {
            popped.push(qu.dequeue().unwrap());
        }
    }
    let popped_str = popped.join(" ");
    let queue_len = format!("({} left on queue)", qu.len());
    let output = format!("{} {}", popped_str, queue_len);
    assert_eq!(output, "to be or not to be (2 left on queue)");
    assert_eq!(joined(linked_items(&qu)), "that is ");

    let qu2 = qu.clone();
    assert_eq!(joined(linked_items(&qu2)), "that is ");
}

#[test]
fn linked_queue_drop() {
    let mut qu: LinkedQueue<String> = LinkedQueue::new();
    let list: Vec<String> = LIST.iter().map(|x| x.to_string()).collect();
    for item in list {
        qu.enqueue(item);
    }
}

#[test]
fn linked_queue_variance() {
    fn _two_refs<'short, 'long: 'short>(a: LinkedQueue<&'short str>, b: LinkedQueue<&'long str>) {
        _take_two(a, b);
    }
    fn _take_two<T>(_val1: T, _val2: T) {}

    fn _bar<'a>() {
        let s: LinkedQueue<&'static str> = LinkedQueue::new();
        let _t: LinkedQueue<&'a str> = s;
    }
}

#[test]
fn resizing_queue_of_str() {
    let mut qu = ResizingQueue::new();
    assert_eq!(resizing_items(&qu).len(), 0);
    let list = LIST;
    let mut popped = Vec::new();
    for item in list {
        if item != "-" {
            qu.enqueue(item);
        } else if !qu.is_empty() {
            popped.push(qu.dequeue().unwrap());
        }
    }
    let popped_str = popped.join(" ");
    let queue_len = format!("({} left on queue)", qu.len());
    let output = format!("{} {}", popped_str, queue_len);
    assert_eq!(output, "to be or not to be (2 left on queue)");
    assert_eq!(joined(resizing_items(&qu)), "that is ");

    let qu2 = qu.clone();
    assert_eq!(joined(resizing_items(&qu2)), "that is ");
}

#[test]
fn svecque_of_str() {
    let mut qu = SVecQue::new();
    assert_eq!(svecque_items(&qu).len(), 0);
    let list = LIST;
    let mut popped = Vec::new();
    for item in list {
        if item != "-" {
            qu.enqueue(item);
        } else if !qu.is_empty() {
            popped.push(qu.dequeue().unwrap());
        }
    }
    let popped_str = popped.join(" ");
    let queue_len = format!("({} left on queue)", qu.len());
    let output = format!("{} {}", popped_str, queue_len);
    assert_eq!(output, "to be or not to be (2 left on queue)");
    assert_eq!(joined(svecque_items(&qu)), "that is ");

    let qu2 = qu.clone();
    assert_eq!(joined(svecque_items(&qu2)), "that is ");
}

#[test]
fn queues_peek_oldest_item() {
    let mut a = LinkedQueue::new();
    let mut b = ResizingQueue::new();
    let mut c = SVecQue::new();
    assert_eq!(a.peek(), None);
    assert_eq!(b.peek(), None);
    assert_eq!(c.peek(), None);
    for x in [1, 2, 3] {
        a.enqueue(x);
        b.enqueue(x);
        c.enqueue(x);
    }
    assert_eq!(a.peek(), Some(&1));
    assert_eq!(b.peek(), Some(&1));
    assert_eq!(c.peek(), Some(&1));
    assert_eq!(a.dequeue(), Some(1));
    assert_eq!(a.peek(), Some(&2));
    a.enqueue(4);
    assert_eq!(a.dequeue(), Some(2));
    assert_eq!(a.dequeue(), Some(3));
    assert_eq!(a.dequeue(), Some(4));
    assert_eq!(a.dequeue(), None);
}

#[test]
fn svecque_resizes() {
    let mut q = SVecQue::new();
    assert_eq!(q.cap(), 0);
    for x in 0..8 {
        q.enqueue(x);
    }
    assert_eq!(q.cap(), 8);
    for x in 0..6 {
        assert_eq!(q.dequeue(), Some(x));
    }
    assert_eq!(q.len(), 2);
    assert_eq!(q.cap(), 4);
    q.enqueue(8);
    q.enqueue(9);
    q.enqueue(10);
    assert_eq!(q.len(), 5);
    for x in 6..11 {
        assert_eq!(q.dequeue(), Some(x));
    }
    assert!(q.is_empty());
}
