use spsc_stream::mpmc;
use spsc_stream::spsc;
use spsc_stream::spsc2;

#[test]
fn test_full() {
    let mut q: mpmc::Queue<Box<i32>, mpmc::NoAlign> = mpmc::Queue::new();
    q.push(Box::new(1));
    q.push(Box::new(2));
}

#[test]
fn spsc_smoke() {
    let mut queue = spsc::Queue::new(0);
    queue.push(1);
    queue.push(2);
    assert_eq!(queue.pop(), Some(1));
    assert_eq!(queue.pop(), Some(2));
    assert_eq!(queue.pop(), None);
    queue.push(3);
    queue.push(4);
    assert_eq!(queue.pop(), Some(3));
    assert_eq!(queue.pop(), Some(4));
    assert_eq!(queue.pop(), None);
}

#[test]
fn spsc_peek() {
    let mut queue = spsc::Queue::new(0);
    queue.push(vec![1]);

    match queue.peek() {
        Some(vec) => {
            assert_eq!(&*vec, &[1]);
        }
        None => unreachable!(),
    }

    match queue.pop() {
        Some(vec) => {
            assert_eq!(&*vec, &[1]);
        }
        None => unreachable!(),
    }
}

#[test]
fn spsc_drop_full() {
    let mut q: spsc::Queue<Box<i32>, spsc::NoAlign, spsc::NormalNodeCache> = spsc::Queue::new(0);
    q.push(Box::new(1));
    q.push(Box::new(2));
}

#[test]
fn spsc_smoke_bound() {
    let mut q = spsc::Queue::new(0);
    q.push(1);
    q.push(2);
    assert_eq!(q.pop(), Some(1));
    assert_eq!(q.pop(), Some(2));
    assert_eq!(q.pop(), None);
    q.push(3);
    q.push(4);
    assert_eq!(q.pop(), Some(3));
    assert_eq!(q.pop(), Some(4));
    assert_eq!(q.pop(), None);
}

#[test]
fn spsc2_smoke() {
    let mut queue = spsc2::Queue::new(0);
    queue.push(1);
    queue.push(2);
    assert_eq!(queue.pop(), Some(1));
    assert_eq!(queue.pop(), Some(2));
    assert_eq!(queue.pop(), None);
    queue.push(3);
    queue.push(4);
    assert_eq!(queue.pop(), Some(3));
    assert_eq!(queue.pop(), Some(4));
    assert_eq!(queue.pop(), None);
}

#[test]
fn spsc2_peek() {
    let mut queue = spsc2::Queue::new(0);
    queue.push(vec![1]);

    match queue.peek() {
        Some(vec) => {
            assert_eq!(&*vec, &[1]);
        }
        None => unreachable!(),
    }

    match queue.pop() {
        Some(vec) => {
            assert_eq!(&*vec, &[1]);
        }
        None => unreachable!(),
    }
}

#[test]
fn spsc2_drop_full() {
    let mut q: spsc2::Queue<Box<i32>, spsc2::NoAlign> = spsc2::Queue::new(0);
    q.push(Box::new(1));
    q.push(Box::new(2));
}

#[test]
fn spsc2_smoke_bound() {
    let mut q = spsc2::Queue::new(0);
    q.push(1);
    q.push(2);
    assert_eq!(q.pop(), Some(1));
    assert_eq!(q.pop(), Some(2));
    assert_eq!(q.pop(), None);
    q.push(3);
    q.push(4);
    assert_eq!(q.pop(), Some(3));
    assert_eq!(q.pop(), Some(4));
    assert_eq!(q.pop(), None);
}

// FIFO order and the empty probe on an unbounded-cache queue: three pushed
// values come back in order, one for one, and the next pop reports empty.
#[test]
fn spsc_fifo_one_two_three() {
    let mut q = spsc::Queue::new(0);
    q.push(1);
    q.push(2);
    q.push(3);
    assert_eq!(q.pop(), Some(1));
    assert_eq!(q.pop(), Some(2));
    assert_eq!(q.pop(), Some(3));
    assert_eq!(q.pop(), None);
}

#[test]
fn spsc_pop_on_fresh_queue_is_none() {
    let mut q: spsc::Queue<i32, spsc::NoAlign, spsc::NormalNodeCache> = spsc::Queue::new(0);
    assert_eq!(q.pop(), None);
    let mut q2: spsc::Queue<i32, spsc::NoAlign, spsc::NoNodeCache> = spsc::Queue::no_cache();
    assert_eq!(q2.pop(), None);
    let mut q3: spsc2::Queue<i32, spsc2::NoAlign> = spsc2::Queue::new(4);
    assert_eq!(q3.pop(), None);
}

// With a reuse bound of 1, the node released by the first pop is reused by
// the second push: no fresh allocation happens.
#[test]
fn spsc_reuse_with_bound_one() {
    let mut q = spsc::Queue::new(1);
    q.push(1);
    assert_eq!(q.pop(), Some(1));
    let allocs_before = q.allocations();
    q.push(2);
    assert_eq!(q.allocations(), allocs_before);
    assert_eq!(q.freed(), 0);
    assert_eq!(q.pop(), Some(2));
}

// With reuse disabled, every push allocates afresh and every pop frees the
// node it pops from.
#[test]
fn spsc_no_cache_always_allocates() {
    let mut q = spsc::Queue::no_cache();
    q.push(1);
    assert_eq!(q.pop(), Some(1));
    assert_eq!(q.freed(), 1);
    let allocs_before = q.allocations();
    q.push(2);
    assert_eq!(q.allocations(), allocs_before + 1);
    assert_eq!(q.pop(), Some(2));
    assert_eq!(q.freed(), 2);
}

// The bounded cache never holds more nodes than its bound: with bound 1 and
// many pops, all but one released node is freed rather than pooled.
#[test]
fn spsc_bound_caps_pool() {
    let mut q = spsc::Queue::new(1);
    for i in 0..8 {
        q.push(i);
    }
    for i in 0..8 {
        assert_eq!(q.pop(), Some(i));
    }
    // eight pops released eight sentinels; only one fit the pool
    assert_eq!(q.freed(), 7);
}

#[test]
fn spsc2_reuse_with_bound_one() {
    let mut q = spsc2::Queue::new(1);
    q.push(1);
    assert_eq!(q.pop(), Some(1));
    let allocs_before = q.allocations();
    q.push(2);
    assert_eq!(q.allocations(), allocs_before);
    assert_eq!(q.pop(), Some(2));
}

#[test]
fn spsc2_bound_caps_marks() {
    let mut q = spsc2::Queue::aligned(2);
    for i in 0..8 {
        q.push(i);
    }
    for i in 0..8 {
        assert_eq!(q.pop(), Some(i));
    }
    // only two nodes were ever marked reusable; the other six released
    // sentinels were freed on the spot
    assert_eq!(q.freed(), 6);
}

// The multi-producer baseline, driven from one thread, classifies every pop
// as Data or Empty — never as the transient Inconsistent window.
#[test]
fn mpmc_pop_classification() {
    let mut q: mpmc::Queue<u64, mpmc::NoAlign> = mpmc::Queue::new();
    assert!(matches!(q.pop(), mpmc::PopResult::Empty));
    q.push(10);
    q.push(11);
    match q.pop() {
        mpmc::PopResult::Data(v) => assert_eq!(v, 10),
        _ => unreachable!(),
    }
    match q.pop() {
        mpmc::PopResult::Data(v) => assert_eq!(v, 11),
        _ => unreachable!(),
    }
    assert!(matches!(q.pop(), mpmc::PopResult::Empty));
}

// Counting both sides: everything pushed is popped exactly once.
#[test]
fn mpmc_no_loss() {
    let mut q = mpmc::Queue::aligned();
    let n: u64 = 100;
    for i in 0..n {
        q.push(i);
    }
    let mut popped: u64 = 0;
    loop {
        match q.pop() {
            mpmc::PopResult::Data(v) => {
                assert_eq!(v, popped);
                popped += 1;
            }
            mpmc::PopResult::Empty => break,
            mpmc::PopResult::Inconsistent => unreachable!(),
        }
    }
    assert_eq!(popped, n);
}

// The aligned variants behave exactly like the unaligned ones.
#[test]
fn aligned_variants_match() {
    let mut a = spsc::Queue::aligned(2);
    let mut b = spsc::Queue::aligned_no_cache();
    for i in 0..5 {
        a.push(i);
        b.push(i);
    }
    for i in 0..5 {
        assert_eq!(a.pop(), Some(i));
        assert_eq!(b.pop(), Some(i));
    }
    assert_eq!(a.pop(), None);
    assert_eq!(b.pop(), None);
}

// An interleaving of pushes and pop attempts: the popped values, followed
// by what remains, are exactly the pushed values, in order.
#[test]
fn spsc_interleaved_trace() {
    let mut q = spsc::Queue::new(2);
    assert_eq!(q.pop(), None);
    q.push(1);
    q.push(2);
    assert_eq!(q.pop(), Some(1));
    q.push(3);
    assert_eq!(q.pop(), Some(2));
    assert_eq!(q.pop(), Some(3));
    assert_eq!(q.pop(), None);
}
