use std::collections::HashSet;
use todotxt_sync::reconcile::update_todos;
use todotxt_sync::todo::Todo;

fn map_of(tds: impl IntoIterator<Item = Todo>) -> Vec<(usize, Todo)> {
    tds.into_iter()
        .map(|t| (t.get_data("id").unwrap().parse().unwrap(), t))
        .collect()
}

#[test]
fn test_done_policy() {
    let t1 = Todo::new(false, None, None, None, "Test 1 id:1 +test".to_string()).unwrap();
    let t2 = Todo::new(false, None, None, None, "Test 2 id:2 +test".to_string()).unwrap();
    let t3 = Todo::new(false, None, None, None, "Test 3 id:3 +test".to_string()).unwrap();
    let mut t1d = t1.clone();
    t1d.done = true;
    let mut t2d = t2.clone();
    t2d.done = true;
    let mut t3d = t3.clone();
    t3d.done = true;

    fn test(mut existing: Vec<Todo>, todos: Vec<Todo>, result: &[Todo], add_done: bool) {
        update_todos(&mut existing, map_of(todos), add_done);
        let existing: HashSet<(String, bool)> = HashSet::from_iter(
            existing.iter().map(|t| (t.get_data("id").unwrap(), t.done)),
        );
        let result = HashSet::from_iter(result.iter().map(|t| (t.get_data("id").unwrap(), t.done)));
        assert_eq!(
            existing, result,
            "Testing update_todos with add_done = {:?}",
            add_done
        );
    }

    test(
        vec![],
        vec![t1d.clone(), t2d.clone()],
        &[t1d.clone(), t2d.clone()],
        true,
    );

    test(
        vec![t1.clone()],
        vec![t1d.clone(), t2.clone(), t3d.clone()],
        &[t1d.clone(), t2.clone()],
        false,
    );
}

#[test]
fn all_new_records_under_add_policy() {
    let mut a = Todo::new(false, None, None, None, "A id:1".to_string()).unwrap();
    a.done = true;
    let mut b = Todo::new(false, None, None, None, "B id:2".to_string()).unwrap();
    b.done = true;
    let mut local: Vec<Todo> = vec![];
    let (new, upd, del) = update_todos(&mut local, map_of(vec![a.clone(), b.clone()]), true);
    assert_eq!((new, upd, del), (2, 0, 0));
    assert_eq!(local, vec![a, b]);
}

#[test]
fn mark_policy_filters_done_records() {
    let t1 = Todo::new(false, None, None, None, "One id:1".to_string()).unwrap();
    let mut t1d = t1.clone();
    t1d.done = true;
    let t2 = Todo::new(false, None, None, None, "Two id:2".to_string()).unwrap();
    let mut t3d = Todo::new(false, None, None, None, "Three id:3".to_string()).unwrap();
    t3d.done = true;
    let mut local = vec![t1.clone()];
    let (new, upd, del) = update_todos(
        &mut local,
        map_of(vec![t1d.clone(), t2.clone(), t3d.clone()]),
        false,
    );
    assert_eq!((new, upd, del), (2, 1, 0));
    assert_eq!(local, vec![t1d, t2]);
}

#[test]
fn removal_of_vanished_record() {
    let t = Todo::new(false, None, None, None, "Gone id:5".to_string()).unwrap();
    let mut local = vec![t];
    let (new, upd, del) = update_todos(&mut local, vec![], true);
    assert_eq!((new, upd, del), (0, 0, 1));
    assert!(local.is_empty());
}

#[test]
fn foreign_record_is_preserved() {
    let foreign = Todo::new(false, None, None, None, "Hand-written note".to_string()).unwrap();
    let incoming = Todo::new(false, None, None, None, "Synced id:9".to_string()).unwrap();
    let mut local = vec![foreign.clone()];
    let (new, upd, del) = update_todos(&mut local, map_of(vec![incoming.clone()]), false);
    assert_eq!((new, upd, del), (1, 0, 0));
    assert_eq!(local, vec![foreign, incoming]);
}

#[test]
fn unparsable_identifier_is_foreign() {
    let odd = Todo::new(false, None, None, None, "Odd id:notanumber".to_string()).unwrap();
    let mut local = vec![odd.clone()];
    let (new, upd, del) = update_todos(&mut local, vec![], true);
    assert_eq!((new, upd, del), (0, 0, 0));
    assert_eq!(local, vec![odd]);
}

#[test]
fn matched_equal_record_counts_unchanged() {
    let t = Todo::new(false, None, None, None, "Same id:4".to_string()).unwrap();
    let mut local = vec![t.clone()];
    let (new, upd, del) = update_todos(&mut local, map_of(vec![t.clone()]), false);
    assert_eq!((new, upd, del), (0, 0, 0));
    assert_eq!(local, vec![t]);
}
