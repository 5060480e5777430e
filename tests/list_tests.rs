use cursor_list::LinkedList;

fn build(range: std::ops::Range<i32>) -> LinkedList<i32> {
    LinkedList::from_vec(range.collect())
}

fn build_usize(n: usize) -> LinkedList<usize> {
    LinkedList::from_vec((0..n).collect())
}

fn to_vec<T: Clone>(list: &LinkedList<T>) -> Vec<T> {
    let mut out = Vec::new();
    let mut c = list.cursor();
    c.move_next();
    while let Some(e) = c.current() {
        out.push(e.clone());
        c.move_next();
    }
    out
}

fn mut_cmp_iterator<T, I>(list: &mut LinkedList<T>, iter: I)
where
    T: PartialEq + std::fmt::Debug,
    I: IntoIterator<Item = T> + Clone + Iterator + DoubleEndedIterator<Item = T>,
{
    {
        let mut cursor = list.cursor_mut();
        for i in iter.clone() {
            cursor.move_next();
            let mut i = i;
            assert_eq!(cursor.current(), Some(&mut i));
        }
        cursor.move_next();
        assert_eq!(cursor.current(), None);
    }
    {
        let mut cursor = list.cursor_mut();
        let iter = iter.rev();

        for i in iter {
            cursor.move_prev();
            let mut i = i;
            assert_eq!(cursor.current(), Some(&mut i));
        }
        cursor.move_prev();
        assert_eq!(cursor.current(), None);
    }
}

fn cmp_iterator<T, I>(list: &LinkedList<T>, iter: I)
where
    T: PartialEq + std::fmt::Debug,
    I: IntoIterator<Item = T> + Clone + Iterator + DoubleEndedIterator<Item = T>,
{
    {
        // forwards iteration
        let mut cursor = list.cursor();
        for i in iter.clone() {
            cursor.move_next();
            assert_eq!(cursor.current(), Some(&i));
        }
        cursor.move_next();
        assert_eq!(cursor.current(), None);
    }
    {
        // reverse iteration
        let mut cursor = list.cursor();
        let iter = iter.rev();

        for i in iter {
            cursor.move_prev();
            assert_eq!(cursor.current(), Some(&i));
        }
        cursor.move_prev();
        assert_eq!(cursor.current(), None);
    }
}

#[test]
fn sanity_test() {
    cmp_iterator(&build(0..10), 0..10);
    mut_cmp_iterator(&mut build(0..10), 0..10);
}

#[test]
fn reverse() {
    let list = build(0..4);
    let mut cursor = list.cursor();
    for i in (0..4).rev() {
        cursor.move_prev();
        assert_eq!(cursor.current(), Some(&i));
    }
    cursor.move_prev();
    assert_eq!(cursor.current(), None);
}

#[test]
fn peek() {
    let list = build(3..5);
    let cursor = list.cursor();
    assert_eq!(cursor.peek(), Some(&3));
    assert_eq!(cursor.peek_before(), Some(&4));
}

#[test]
fn len() {
    let mut list = build(0..5);
    assert_eq!(list.len(), 5);
    let list2 = {
        let mut cursor = list.cursor_mut();
        cursor.move_next();
        cursor.move_next();
        cursor.split()
    };
    assert_eq!(list.len(), 2);
    assert_eq!(list2.len(), 3);
}

fn check_split(n: usize, mut i: Option<usize>) {
    let mut list = build_usize(n);
    println!("split {:?} at {:?}", to_vec(&list), i);
    let tail = {
        let mut c = list.cursor_mut();
        if let Some(i) = i {
            c.move_next();
            for _ in 0..i {
                c.move_next();
            }
        }
        println!(" = {:?}", c.current());
        assert_eq!(i.as_mut(), c.current());
        c.split()
    };
    println!("old: {:?}", to_vec(&list));
    println!("new: {:?}", to_vec(&tail));
    match i {
        Some(i) => {
            cmp_iterator(&list, 0..=i);
            cmp_iterator(&tail, i + 1..n);
        }
        _ => {
            cmp_iterator(&list, 0..0);
            cmp_iterator(&tail, 0..n);
        }
    }
}

#[test]
fn split() {
    check_split(10, None); // cursor at the ghost slot
    check_split(10, Some(0)); // cursor at the head
    check_split(10, Some(9)); // cursor at the tail
    check_split(10, Some(3)); // cursor inside
    check_split(1, None); // ghost slot of a single element
    check_split(1, Some(0)); // single element, neither prev nor next
}

fn check_split_before(n: usize, i: Option<usize>) {
    let mut list = build_usize(n);
    println!("split {:?} before {:?}", to_vec(&list), i);
    let tail = {
        let mut c = list.cursor_mut();
        if let Some(i) = i {
            c.move_next();
            for _ in 0..i {
                c.move_next();
            }
        }
        println!(" = {:?}", c.current());
        c.split_before()
    };
    println!("old: {:?}", to_vec(&list));
    println!("new: {:?}", to_vec(&tail));
    match i {
        Some(i) => {
            cmp_iterator(&list, 0..i);
            cmp_iterator(&tail, i..n);
        }
        _ => {
            cmp_iterator(&list, 0..0);
            cmp_iterator(&tail, 0..n);
        }
    }
}

#[test]
fn split_before() {
    check_split_before(10, None); // cursor at the ghost slot
    check_split_before(10, Some(0)); // cursor at the head
    check_split_before(10, Some(1)); // cursor after the head
    check_split_before(10, Some(9)); // cursor at the tail
    check_split_before(10, Some(3)); // cursor inside
    check_split_before(1, None); // ghost slot of a single element
    check_split_before(1, Some(0)); // single element, neither prev nor next
}
