use oh_hell::cycle::CyclicIterator;

fn drain(cyclic: &mut CyclicIterator) -> Vec<usize> {
    let mut out = Vec::new();
    while let Some(x) = cyclic.next() {
        out.push(x);
    }
    out
}

#[test]
fn test_shift() {
    let mut cyclic = CyclicIterator::new(5);

    let result = drain(&mut cyclic);
    assert_eq!(result, vec![0, 1, 2, 3, 4]);

    cyclic.shift();
    let result = drain(&mut cyclic);
    assert_eq!(result, vec![1, 2, 3, 4, 0]);

    cyclic.shift();
    let result = drain(&mut cyclic);
    assert_eq!(result, vec![2, 3, 4, 0, 1]);

    cyclic.reset();
    let result = drain(&mut cyclic);
    assert_eq!(result, vec![2, 3, 4, 0, 1]);
}

#[test]
fn test_shift_to() {
    let mut cyclic = CyclicIterator::new(5);

    let result = drain(&mut cyclic);
    assert_eq!(result, vec![0, 1, 2, 3, 4]);

    cyclic.shift_to(4);
    let result = drain(&mut cyclic);
    assert_eq!(result, vec![4, 0, 1, 2, 3]);

    cyclic.shift_to(2);
    let result = drain(&mut cyclic);
    assert_eq!(result, vec![2, 3, 4, 0, 1]);

    cyclic.shift_to(3);
    let result = drain(&mut cyclic);
    assert_eq!(result, vec![3, 4, 0, 1, 2]);
}

#[test]
fn test_single_element() {
    let mut cyclic = CyclicIterator::new(1);

    assert_eq!(cyclic.next(), Some(0));
    assert_eq!(cyclic.next(), None);
}

#[test]
fn test_empty() {
    let mut cyclic = CyclicIterator::new(0);

    assert_eq!(cyclic.next(), None);

    cyclic.reset();

    assert_eq!(cyclic.next(), None);
}

#[test]
fn test_remove() {
    //[0,1,2,3,4]
    let mut cyclic = CyclicIterator::new(5);

    //[1,2,3,4,0]
    cyclic.shift();
    //[2,3,4,0,1]
    cyclic.shift();

    let result = drain(&mut cyclic);
    assert_eq!(result, vec![2, 3, 4, 0, 1]);
    cyclic.reset();

    //[2,3,4,1]
    cyclic.remove(0);
    let result = drain(&mut cyclic);
    assert_eq!(result, vec![2, 3, 4, 1]);
    cyclic.reset();

    //[2,3,1]
    cyclic.remove(4);
    let result = drain(&mut cyclic);
    assert_eq!(result, vec![2, 3, 1]);
    cyclic.reset();

    //[3,1]
    cyclic.remove(2);
    let result = drain(&mut cyclic);
    assert_eq!(result, vec![3, 1]);
    cyclic.reset();
}

#[test]
fn test_peek_exhaustion() {
    let mut cyclic = CyclicIterator::new(2);
    assert_eq!(cyclic.peek(), Some(0));
    assert_eq!(cyclic.peek_next(), Some(1));
    cyclic.next();
    assert_eq!(cyclic.peek(), Some(1));
    assert_eq!(cyclic.peek_next(), None);
    cyclic.next();
    // a full lap has been yielded: peek stays empty until a shift
    assert_eq!(cyclic.peek(), None);
    assert_eq!(cyclic.next(), None);
    cyclic.shift();
    assert_eq!(cyclic.peek(), Some(1));
}
