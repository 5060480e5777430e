use cursor_list::{Cursor, CursorMut, LinkedList};

fn items(list: &LinkedList<u32>) -> Vec<u32> {
    let mut out = Vec::new();
    let mut c: Cursor<u32> = list.cursor();
    c.move_next();
    while let Some(e) = c.current() {
        out.push(*e);
        c.move_next();
    }
    out
}

fn items_backward(list: &LinkedList<u32>) -> Vec<u32> {
    let mut out = Vec::new();
    let mut c = list.cursor();
    c.move_prev();
    while let Some(e) = c.current() {
        out.push(*e);
        c.move_prev();
    }
    out
}

fn build(v: &[u32]) -> LinkedList<u32> {
    LinkedList::from_vec(v.to_vec())
}

fn advance(c: &mut CursorMut<u32>, steps: usize) {
    for _ in 0..steps {
        c.move_next();
    }
}

#[test]
fn new_list_is_empty() {
    let list: LinkedList<u32> = LinkedList::new();
    assert_eq!(list.len(), 0);
    let c = list.cursor();
    assert_eq!(c.current(), None);
    assert_eq!(c.peek(), None);
    assert_eq!(c.peek_before(), None);
}

#[test]
fn forward_and_backward_walks() {
    let list = build(&[4, 8, 15, 16, 23, 42]);
    assert_eq!(items(&list), vec![4, 8, 15, 16, 23, 42]);
    assert_eq!(items_backward(&list), vec![42, 23, 16, 15, 8, 4]);
    assert_eq!(items(&build(&[])), Vec::<u32>::new());
}

#[test]
fn walk_wraps_through_ghost_slot() {
    let list = build(&[1, 2]);
    let mut c = list.cursor();
    c.move_next();
    c.move_next();
    c.move_next();
    assert_eq!(c.current(), None);
    c.move_next();
    assert_eq!(c.current(), Some(&1));
    c.move_prev();
    c.move_prev();
    assert_eq!(c.current(), Some(&2));
}

#[test]
fn next_then_prev_returns() {
    let list = build(&[10, 20, 30]);
    let mut c = list.cursor();
    c.move_next();
    c.move_next();
    assert_eq!(c.current(), Some(&20));
    c.move_next();
    c.move_prev();
    assert_eq!(c.current(), Some(&20));
    c.move_prev();
    c.move_next();
    assert_eq!(c.current(), Some(&20));
}

#[test]
fn length_counts_elements() {
    let mut list = build(&[1, 2, 3, 4]);
    assert_eq!(list.len(), 4);
    {
        let mut c = list.cursor_mut();
        c.insert(9);
        c.insert_before(8);
        assert_eq!(c.pop(), Some(9));
    }
    assert_eq!(list.len(), 5);
    assert_eq!(items(&list), vec![1, 2, 3, 4, 8]);
}

#[test]
fn insert_after_cursor() {
    let mut list = build(&[1, 2, 3]);
    {
        let mut c = list.cursor_mut();
        c.insert(0);
        advance(&mut c, 2);
        assert_eq!(c.current(), Some(&mut 1));
        c.insert(7);
        assert_eq!(c.current(), Some(&mut 1));
        assert_eq!(c.peek(), Some(&mut 7));
    }
    assert_eq!(items(&list), vec![0, 1, 7, 2, 3]);
}

#[test]
fn insert_before_cursor() {
    let mut list = build(&[1, 2, 3]);
    {
        let mut c = list.cursor_mut();
        c.insert_before(4);
        advance(&mut c, 2);
        assert_eq!(c.current(), Some(&mut 2));
        c.insert_before(9);
        assert_eq!(c.current(), Some(&mut 2));
        assert_eq!(c.peek_before(), Some(&mut 9));
    }
    assert_eq!(items(&list), vec![1, 9, 2, 3, 4]);
}

#[test]
fn offset_follows_insert_before() {
    let mut list = build(&[1, 2, 3]);
    let tail = {
        let mut c = list.cursor_mut();
        advance(&mut c, 2);
        c.insert_before(5);
        c.split()
    };
    assert_eq!(items(&list), vec![1, 5, 2]);
    assert_eq!(items(&tail), vec![3]);
}

#[test]
fn element_writes_through_cursor() {
    let mut list = build(&[1, 2, 3]);
    {
        let mut c = list.cursor_mut();
        advance(&mut c, 2);
        *c.current().unwrap() = 10;
        *c.peek().unwrap() = 20;
        *c.peek_before().unwrap() = 30;
        assert_eq!(c.as_cursor().current(), Some(&10));
        c.move_next();
        c.move_next();
        assert_eq!(c.peek_before(), Some(&mut 20));
        assert_eq!(c.peek(), Some(&mut 30));
    }
    assert_eq!(items(&list), vec![30, 10, 20]);
}

#[test]
fn as_cursor_keeps_position() {
    let mut list = build(&[5, 6, 7]);
    let mut c = list.cursor_mut();
    advance(&mut c, 2);
    let r = c.as_cursor();
    assert_eq!(r.current(), Some(&6));
    assert_eq!(r.peek(), Some(&7));
    assert_eq!(r.peek_before(), Some(&5));
}

#[test]
fn pop_from_ghost_drains_in_order() {
    let mut list = build(&[3, 1, 4, 1, 5]);
    {
        let mut c = list.cursor_mut();
        assert_eq!(c.pop(), Some(3));
        assert_eq!(c.pop(), Some(1));
        assert_eq!(c.pop(), Some(4));
        assert_eq!(c.pop(), Some(1));
        assert_eq!(c.pop(), Some(5));
        assert_eq!(c.pop(), None);
    }
    assert_eq!(list.len(), 0);
    assert_eq!(items(&list), Vec::<u32>::new());
}

#[test]
fn pop_at_tail_is_none() {
    let mut list = build(&[1, 2]);
    let mut c = list.cursor_mut();
    advance(&mut c, 2);
    assert_eq!(c.pop(), None);
    assert_eq!(c.current(), Some(&mut 2));
}

#[test]
fn pop_inside_and_keep_moving() {
    let mut list = build(&[1, 2, 3, 4]);
    {
        let mut c = list.cursor_mut();
        advance(&mut c, 4);
        assert_eq!(c.current(), Some(&mut 4));
        c.move_prev();
        c.move_prev();
        assert_eq!(c.pop(), Some(3));
        assert_eq!(c.current(), Some(&mut 2));
        c.move_next();
        assert_eq!(c.current(), Some(&mut 4));
    }
    assert_eq!(items(&list), vec![1, 2, 4]);
    assert_eq!(items_backward(&list), vec![4, 2, 1]);
}

#[test]
fn pop_prev_from_ghost_and_inside() {
    let mut list = build(&[1, 2, 3, 4]);
    {
        let mut c = list.cursor_mut();
        assert_eq!(c.pop_prev(), Some(4));
        advance(&mut c, 2);
        assert_eq!(c.current(), Some(&mut 2));
        assert_eq!(c.pop_prev(), Some(1));
        assert_eq!(c.pop_prev(), None);
        assert_eq!(c.current(), Some(&mut 2));
    }
    assert_eq!(items(&list), vec![2, 3]);
}

#[test]
fn offset_follows_pop_prev() {
    let mut list = build(&[1, 2, 3, 4]);
    let tail = {
        let mut c = list.cursor_mut();
        advance(&mut c, 3);
        assert_eq!(c.pop_prev(), Some(2));
        c.split()
    };
    assert_eq!(items(&list), vec![1, 3]);
    assert_eq!(items(&tail), vec![4]);
}

#[test]
fn split_after_fourth_element_of_ten() {
    let mut list = LinkedList::from_vec((0..10).collect::<Vec<u32>>());
    let tail = {
        let mut c = list.cursor_mut();
        advance(&mut c, 4);
        assert_eq!(c.current(), Some(&mut 3));
        c.split()
    };
    assert_eq!(items(&list), vec![0, 1, 2, 3]);
    assert_eq!(items(&tail), vec![4, 5, 6, 7, 8, 9]);
    assert_eq!(list.len(), 4);
    assert_eq!(tail.len(), 6);
}

#[test]
fn split_then_splice_restores() {
    for cut in 0..=5usize {
        let mut list = build(&[1, 2, 3, 4, 5]);
        let tail = {
            let mut c = list.cursor_mut();
            advance(&mut c, cut);
            c.split()
        };
        {
            let mut c = list.cursor_mut();
            advance(&mut c, cut);
            c.insert_list(tail);
        }
        assert_eq!(items(&list), vec![1, 2, 3, 4, 5]);
        assert_eq!(items_backward(&list), vec![5, 4, 3, 2, 1]);
    }
}

#[test]
fn split_before_at_ghost_and_head() {
    let mut list = build(&[1, 2, 3]);
    let all = list.cursor_mut().split_before();
    assert_eq!(items(&list), Vec::<u32>::new());
    assert_eq!(items(&all), vec![1, 2, 3]);

    let mut list = build(&[1, 2, 3]);
    let all = {
        let mut c = list.cursor_mut();
        c.move_next();
        c.split_before()
    };
    assert_eq!(list.len(), 0);
    assert_eq!(items(&all), vec![1, 2, 3]);
}

#[test]
fn splice_empty_list_changes_nothing() {
    let mut list = build(&[1, 2, 3]);
    {
        let mut c = list.cursor_mut();
        c.move_next();
        c.insert_list(LinkedList::new());
        c.insert_list_before(LinkedList::new());
        assert_eq!(c.current(), Some(&mut 1));
        assert_eq!(c.peek(), Some(&mut 2));
        assert_eq!(c.peek_before(), None);
    }
    assert_eq!(list.len(), 3);
    assert_eq!(items(&list), vec![1, 2, 3]);
    assert_eq!(items_backward(&list), vec![3, 2, 1]);
}

#[test]
fn insert_list_after_cursor() {
    let mut list = build(&[1, 5]);
    {
        let mut c = list.cursor_mut();
        c.move_next();
        c.insert_list(build(&[2, 3, 4]));
        assert_eq!(c.current(), Some(&mut 1));
    }
    assert_eq!(items(&list), vec![1, 2, 3, 4, 5]);
    assert_eq!(items_backward(&list), vec![5, 4, 3, 2, 1]);
}

#[test]
fn insert_list_from_ghost_goes_to_front() {
    let mut list = build(&[3]);
    list.cursor_mut().insert_list(build(&[1, 2]));
    assert_eq!(items(&list), vec![1, 2, 3]);
}

#[test]
fn insert_list_before_cursor_moves_offset() {
    let mut list = build(&[1, 5, 6]);
    let tail = {
        let mut c = list.cursor_mut();
        advance(&mut c, 2);
        c.insert_list_before(build(&[2, 3, 4]));
        assert_eq!(c.current(), Some(&mut 5));
        c.split()
    };
    assert_eq!(items(&list), vec![1, 2, 3, 4, 5]);
    assert_eq!(items(&tail), vec![6]);
}

#[test]
fn insert_list_before_from_ghost_goes_to_back() {
    let mut list = build(&[1]);
    let tail = {
        let mut c = list.cursor_mut();
        c.insert_list_before(build(&[2, 3]));
        assert_eq!(c.current(), None);
        c.split()
    };
    assert_eq!(items(&list), Vec::<u32>::new());
    assert_eq!(items(&tail), vec![1, 2, 3]);
}

#[test]
fn long_list_is_built_and_drained() {
    let n: u32 = 100_000;
    let mut list = LinkedList::from_vec((0..n).collect::<Vec<u32>>());
    assert_eq!(list.len(), n as usize);
    let mut c = list.cursor_mut();
    let mut expected: u32 = 0;
    while let Some(e) = c.pop() {
        assert_eq!(e, expected);
        expected += 1;
    }
    assert_eq!(expected, n);
}

#[test]
fn finish_hands_the_list_back() {
    let mut list = build(&[2]);
    let mut c = list.cursor_mut();
    c.insert(1);
    c.move_prev();
    c.insert_before(3);
    c.finish();
    assert_eq!(list.len(), 3);
    assert_eq!(items(&list), vec![1, 3, 2]);
}
