use multi_thread::{PopStep, PopTicket, Stack};

fn end<T>(s: &mut Stack<T>, t: PopTicket) {
    if let Some(t) = s.end_pop(t) {
        s.finish_reclaim(t);
    }
}

fn done<T>(step: PopStep<T>) -> Option<T> {
    match step {
        PopStep::Done(v) => v,
        PopStep::Continue => panic!("pop not finished"),
    }
}

#[test]
fn stack_lifo_single_thread() {
    let mut s = Stack::new();
    for v in 1..=5u32 {
        s.push(v);
    }
    let mut out = Vec::new();
    for _ in 0..5 {
        out.push(s.pop().unwrap());
    }
    assert_eq!(out, vec![5, 4, 3, 2, 1]);
    assert_eq!(s.pop(), None);
    assert_eq!(s.threads_in_pop(), 0);
}

#[test]
fn stack_pop_empty() {
    let mut s: Stack<u8> = Stack::new();
    assert_eq!(s.pop(), None);
    assert_eq!(s.arena_len(), 0);
    assert_eq!(s.pending_count(), 0);
}

#[test]
fn stack_elements_top_first() {
    let mut s = Stack::new();
    s.push("a".to_string());
    s.push("b".to_string());
    let items: Vec<&String> = s.elements();
    assert_eq!(items, vec!["b", "a"]);
}

#[test]
fn stack_sole_pop_reclaims_and_reuses() {
    let mut s = Stack::new();
    s.push(10);
    s.push(20);
    assert_eq!(s.pop(), Some(20));
    assert_eq!(s.reclaimed_slots(), 1);
    s.push(30);
    assert_eq!(s.arena_len(), 2);
    assert_eq!(s.reclaimed_slots(), 0);
    assert_eq!(s.elements(), vec![&30, &10]);
}

#[test]
fn stack_contended_pop_defers_reclamation() {
    let mut s = Stack::new();
    s.push(1);
    s.push(2);
    s.push(3);
    let a = s.begin_pop();
    let b = s.begin_pop();
    assert_eq!(s.threads_in_pop(), 2);
    // Both read the successor of the same top.
    assert!(matches!(s.pop_step(&a), PopStep::Continue));
    assert!(matches!(s.pop_step(&b), PopStep::Continue));
    // The second pop wins the compare-and-swap.
    assert_eq!(done(s.pop_step(&b)), Some(3));
    // The first one fails its compare-and-swap and loads the new top.
    assert!(matches!(s.pop_step(&a), PopStep::Continue));
    // Another pop is still in progress: the node must wait.
    assert!(s.end_pop(b).is_none());
    assert_eq!(s.threads_in_pop(), 1);
    assert_eq!(s.pending_count(), 1);
    assert_eq!(s.reclaimed_slots(), 0);
    assert!(matches!(s.pop_step(&a), PopStep::Continue));
    assert_eq!(done(s.pop_step(&a)), Some(2));
    // The last pop out takes the pending node and reclaims it with its own.
    let a = s.end_pop(a).unwrap();
    assert_eq!(s.pending_count(), 0);
    assert_eq!(s.threads_in_pop(), 1);
    s.finish_reclaim(a);
    assert_eq!(s.threads_in_pop(), 0);
    assert_eq!(s.pending_count(), 0);
    assert_eq!(s.reclaimed_slots(), 2);
    assert_eq!(s.arena_len(), 3);
    assert_eq!(s.elements(), vec![&1]);
}

#[test]
fn stack_pop_that_loaded_empty_returns_none() {
    let mut s = Stack::new();
    let a = s.begin_pop();
    s.push(7);
    assert_eq!(done(s.pop_step(&a)), None);
    end(&mut s, a);
    assert_eq!(s.elements(), vec![&7]);
}

#[test]
fn stack_no_loss_no_duplication_interleaved() {
    let mut s = Stack::new();
    let mut pushed: Vec<u32> = Vec::new();
    let mut popped: Vec<u32> = Vec::new();
    for round in 0..50u32 {
        for producer in 0..4u32 {
            let v = producer * 1000 + round;
            s.push(v);
            pushed.push(v);
        }
        let a = s.begin_pop();
        let b = s.begin_pop();
        let c = s.begin_pop();
        let mut open = vec![a, b, c];
        let mut finished = Vec::new();
        while !open.is_empty() {
            let mut still = Vec::new();
            for (i, t) in open.into_iter().enumerate() {
                match s.pop_step(&t) {
                    PopStep::Continue => still.push(t),
                    PopStep::Done(v) => {
                        if let Some(v) = v {
                            popped.push(v);
                        }
                        if (round + i as u32) % 2 == 0 {
                            end(&mut s, t);
                        } else {
                            finished.push(t);
                        }
                    }
                }
            }
            open = still;
        }
        for t in finished {
            end(&mut s, t);
        }
        assert_eq!(s.threads_in_pop(), 0);
        assert_eq!(s.pending_count(), 0);
    }
    while let Some(v) = s.pop() {
        popped.push(v);
    }
    pushed.sort();
    popped.sort();
    assert_eq!(pushed, popped);
    assert_eq!(s.reclaimed_slots(), s.arena_len());
}

#[test]
fn stack_pop_entering_during_reclaim_puts_list_back() {
    let mut s = Stack::new();
    for v in 1..=4u32 {
        s.push(v);
    }
    let x = s.begin_pop();
    assert!(matches!(s.pop_step(&x), PopStep::Continue));
    assert_eq!(done(s.pop_step(&x)), Some(4));
    let y = s.begin_pop();
    assert!(matches!(s.pop_step(&y), PopStep::Continue));
    assert_eq!(done(s.pop_step(&y)), Some(3));
    // Not alone: the node of 3 waits on the pending-delete list.
    assert!(s.end_pop(y).is_none());
    assert_eq!(s.pending_count(), 1);
    // Alone: takes the pending-delete list.
    let x = s.end_pop(x).unwrap();
    assert_eq!(s.pending_count(), 0);
    // A new pop enters before the hazard counter is lowered.
    let z = s.begin_pop();
    assert_eq!(s.threads_in_pop(), 2);
    s.finish_reclaim(x);
    // The taken list goes back; only the own node is reclaimed.
    assert_eq!(s.pending_count(), 1);
    assert_eq!(s.reclaimed_slots(), 1);
    assert!(matches!(s.pop_step(&z), PopStep::Continue));
    assert_eq!(done(s.pop_step(&z)), Some(2));
    let z = s.end_pop(z).unwrap();
    s.finish_reclaim(z);
    assert_eq!(s.pending_count(), 0);
    assert_eq!(s.reclaimed_slots(), 3);
    assert_eq!(s.elements(), vec![&1]);
}

#[test]
fn stack_pop_beside_another_pop_defers_or_adds_nothing() {
    let mut s = Stack::new();
    s.push(5u32);
    let t = s.begin_pop();
    // Beside a pop in progress, a whole pop defers its node.
    assert_eq!(s.pop(), Some(5));
    assert_eq!(s.pending_count(), 1);
    assert_eq!(s.reclaimed_slots(), 0);
    // On the now empty stack, it adds nothing.
    assert_eq!(s.pop(), None);
    assert_eq!(s.pending_count(), 1);
    assert_eq!(s.reclaimed_slots(), 0);
    assert!(matches!(s.pop_step(&t), PopStep::Continue));
    assert!(matches!(s.pop_step(&t), PopStep::Continue));
    assert!(matches!(s.pop_step(&t), PopStep::Done(None)));
    end(&mut s, t);
    assert_eq!(s.pending_count(), 0);
    assert_eq!(s.reclaimed_slots(), 1);
}

#[test]
fn stack_stale_load_never_reports_empty() {
    let mut s = Stack::new();
    s.push(1u32);
    s.push(2u32);
    let a = s.begin_pop();
    let b = s.begin_pop();
    assert!(matches!(s.pop_step(&b), PopStep::Continue));
    assert_eq!(done(s.pop_step(&b)), Some(2));
    // a loaded the node of 2, now gone: its steps reload and pop 1.
    assert!(matches!(s.pop_step(&a), PopStep::Continue));
    assert!(matches!(s.pop_step(&a), PopStep::Continue));
    assert!(matches!(s.pop_step(&a), PopStep::Continue));
    assert_eq!(done(s.pop_step(&a)), Some(1));
    assert!(s.end_pop(b).is_none());
    end(&mut s, a);
    assert_eq!(s.pending_count(), 0);
}
