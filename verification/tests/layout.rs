use snowmew_position::{Delta, Deltas, Id};
use std::sync::Arc;

fn same(t: &i64) -> i64 {
    *t
}

fn sum(a: &i64, b: &i64) -> i64 {
    *a + *b
}

fn path(a: &String, b: &String) -> String {
    format!("{}/{}", a, b)
}

fn name(t: &u32) -> String {
    format!("n{}", t)
}

#[test]
fn ids_are_issued_by_generation() {
    let mut pos = Deltas::new(0i64);
    let root = Deltas::<i64>::root();

    let a = pos.insert(root, 1);
    let b = pos.insert(root, 2);
    let a0 = pos.insert(a, 3);
    let c = pos.insert(root, 4);
    let a00 = pos.insert(a0, 5);
    let b0 = pos.insert(b, 6);

    assert_eq!(a, Id(1, 0));
    assert_eq!(b, Id(1, 1));
    assert_eq!(a0, Id(2, 0));
    assert_eq!(c, Id(1, 2));
    assert_eq!(a00, Id(3, 0));
    assert_eq!(b0, Id(2, 1));
    assert_eq!(pos.len(), 7);
}

#[test]
fn flat_layout_follows_the_generations() {
    let mut pos = Deltas::new(0i64);
    let root = Deltas::<i64>::root();

    let a = pos.insert(root, 1);
    let a0 = pos.insert(a, 10);
    let a00 = pos.insert(a0, 100);
    let b = pos.insert(root, 2);
    let b0 = pos.insert(b, 20);

    let flat = pos.to_positions(&same, &sum);
    assert_eq!(flat.get_loc(root), 0);
    assert_eq!(flat.get_loc(a), 1);
    assert_eq!(flat.get_loc(b), 2);
    assert_eq!(flat.get_loc(a0), 3);
    assert_eq!(flat.get_loc(b0), 4);
    assert_eq!(flat.get_loc(a00), 5);
    assert_eq!(flat.matrices().to_vec(), vec![0i64, 1, 2, 11, 22, 111]);
}

#[test]
fn insertion_into_an_earlier_generation_keeps_later_nodes() {
    let mut pos = Deltas::new(0i64);
    let root = Deltas::<i64>::root();

    let a = pos.insert(root, 1);
    let a0 = pos.insert(a, 10);
    let a00 = pos.insert(a0, 100);
    let a000 = pos.insert(a00, 1000);

    let before = pos.to_positions(&same, &sum);
    assert_eq!(before.get_loc(a0), 2);
    assert_eq!(before.get_loc(a00), 3);
    assert_eq!(before.get_loc(a000), 4);

    let b = pos.insert(root, 2);
    assert_eq!(b, Id(1, 1));

    assert_eq!(pos.get_delta(a), 1);
    assert_eq!(pos.get_delta(a0), 10);
    assert_eq!(pos.get_delta(a00), 100);
    assert_eq!(pos.get_delta(a000), 1000);
    assert_eq!(pos.get_delta(b), 2);
    assert_eq!(pos.get_mat(a000, &same, &sum), 1111);
    assert_eq!(pos.get_mat(b, &same, &sum), 2);

    let after = pos.to_positions(&same, &sum);
    assert_eq!(after.get_loc(a), 1);
    assert_eq!(after.get_loc(b), 2);
    assert_eq!(after.get_loc(a0), 3);
    assert_eq!(after.get_loc(a00), 4);
    assert_eq!(after.get_loc(a000), 5);
    assert_eq!(after.get_mat(a0), before.get_mat(a0));
    assert_eq!(after.get_mat(a00), before.get_mat(a00));
    assert_eq!(after.get_mat(a000), before.get_mat(a000));
    assert_eq!(after.matrices().to_vec(), vec![0i64, 1, 2, 11, 111, 1111]);
}

#[test]
fn product_keeps_parent_on_the_left() {
    let mut pos = Deltas::new(0u32);
    let root = Deltas::<u32>::root();
    let a = pos.insert(root, 1);
    let b = pos.insert(root, 2);
    let b0 = pos.insert(b, 3);
    let a0 = pos.insert(a, 4);

    assert_eq!(pos.get_mat(root, &name, &path), "n0");
    assert_eq!(pos.get_mat(b0, &name, &path), "n0/n2/n3");
    assert_eq!(pos.get_mat(a0, &name, &path), "n0/n1/n4");

    let flat = pos.to_positions(&name, &path);
    assert_eq!(
        flat.matrices().to_vec(),
        vec!["n0", "n0/n1", "n0/n2", "n0/n2/n3", "n0/n1/n4"]
    );
}

#[test]
fn contains_tells_issued_addresses() {
    let mut pos = Deltas::new(0i64);
    let a = pos.insert(Deltas::<i64>::root(), 1);
    let a0 = pos.insert(a, 2);

    assert!(pos.contains(Id(0, 0)));
    assert!(pos.contains(a));
    assert!(pos.contains(a0));
    assert!(!pos.contains(Id(0, 1)));
    assert!(!pos.contains(Id(1, 1)));
    assert!(!pos.contains(Id(2, 1)));
    assert!(!pos.contains(Id(3, 0)));
    assert!(!pos.contains(Id(usize::MAX, 0)));
    assert!(!pos.contains(Id(0, usize::MAX)));
}

#[test]
fn clone_is_an_equal_and_separate_hierarchy() {
    let mut pos = Deltas::new(0i64);
    let a = pos.insert(Deltas::<i64>::root(), 1);
    let a0 = pos.insert(a, 10);

    let mut copy = pos.clone();
    assert_eq!(copy.len(), 3);
    assert_eq!(copy.get_delta(a), 1);
    assert_eq!(copy.get_delta(a0), 10);
    assert_eq!(copy.get_mat(a0, &same, &sum), 11);

    copy.update(a, 5);
    let b = copy.insert(Deltas::<i64>::root(), 7);

    assert_eq!(copy.get_mat(a0, &same, &sum), 15);
    assert_eq!(copy.len(), 4);
    assert_eq!(pos.get_delta(a), 1);
    assert_eq!(pos.get_mat(a0, &same, &sum), 11);
    assert_eq!(pos.len(), 3);
    assert!(!pos.contains(b));
}

#[test]
fn copy_on_write_leaves_the_other_owner_alone() {
    let mut pos = Deltas::new(0i64);
    let a = pos.insert(Deltas::<i64>::root(), 1);
    let a0 = pos.insert(a, 10);

    let mut current = Arc::new(pos);
    let last = current.clone();
    let seen = last.get_mat(a0, &same, &sum);
    let snapshot = last.to_positions(&same, &sum);

    Arc::make_mut(&mut current).update(a, 100);
    let b = Arc::make_mut(&mut current).insert(Deltas::<i64>::root(), 2);

    assert_eq!(current.get_mat(a0, &same, &sum), 110);
    assert_eq!(current.get_delta(b), 2);
    assert_eq!(last.get_mat(a0, &same, &sum), seen);
    assert_eq!(last.get_mat(a0, &same, &sum), 11);
    assert_eq!(last.len(), 3);
    assert_eq!(last.to_positions(&same, &sum).matrices(), snapshot.matrices());
    assert_eq!(snapshot.get_mat(a0), 11);

    let mut sole = Arc::new(Deltas::new(0i64));
    let c = Arc::make_mut(&mut sole).insert(Deltas::<i64>::root(), 3);
    assert_eq!(Arc::strong_count(&sole), 1);
    assert_eq!(sole.get_delta(c), 3);
}

#[test]
fn id_is_a_plain_value() {
    let a = Id(2, 5);
    let b = a;
    assert_eq!(a, b);
    assert_ne!(a, Id(2, 6));
    assert_ne!(a, Id(3, 5));
    assert_eq!(a.0, 2);
    assert_eq!(a.1, 5);
    assert_eq!(Id::default(), Id(0, 0));
}

#[test]
fn flattening_agrees_with_a_walk_up_the_parents() {
    let mut pos = Deltas::new(1i64);
    let mut ids = vec![Deltas::<i64>::root()];
    let mut parents = vec![0usize];
    let mut locals = vec![1i64];
    let mut seed = 12345u64;
    for n in 0..300usize {
        seed = seed.wrapping_mul(6364136223846793005).wrapping_add(1442695040888963407);
        let at = (seed >> 33) as usize % ids.len();
        let local = (n as i64) * 3 - 100;
        let id = pos.insert(ids[at], local);
        assert!(pos.contains(id));
        ids.push(id);
        parents.push(at);
        locals.push(local);
    }
    assert_eq!(pos.len(), 301);

    let flat = pos.to_positions(&same, &sum);
    assert_eq!(flat.len(), 301);
    let mut seen = vec![false; 301];
    for n in 0..ids.len() {
        let mut expected = 0i64;
        let mut at = n;
        loop {
            expected += locals[at];
            if at == 0 {
                break;
            }
            at = parents[at];
        }
        assert_eq!(pos.get_delta(ids[n]), locals[n]);
        assert_eq!(pos.get_mat(ids[n], &same, &sum), expected);
        assert_eq!(flat.get_mat(ids[n]), expected);
        assert_eq!(ids[n].0, if n == 0 { 0 } else { ids[parents[n]].0 + 1 });
        let loc = flat.get_loc(ids[n]);
        assert!(!seen[loc]);
        seen[loc] = true;
    }
    for n in 1..ids.len() {
        assert!(flat.get_loc(ids[parents[n]]) < flat.get_loc(ids[n]));
    }
}

#[test]
fn a_stored_node_can_be_copied() {
    let node: Delta<i64> = Delta::default();
    let copy = node.clone();
    let _both: [Delta<i64>; 2] = [node, copy];
}

#[test]
fn default_hierarchy_has_a_default_root() {
    let mut pos: Deltas<i64> = Deltas::default();
    assert_eq!(pos.len(), 1);
    assert!(pos.contains(Deltas::<i64>::root()));
    assert_eq!(pos.get_delta(Deltas::<i64>::root()), 0);
    let a = pos.insert(Deltas::<i64>::root(), 5);
    assert_eq!(a, Id(1, 0));
    assert_eq!(pos.get_mat(a, &same, &sum), 5);
}

#[test]
fn flattening_multiplies_once_per_node_below_the_root() {
    let mut pos = Deltas::new(0i64);
    let root = Deltas::<i64>::root();
    let a = pos.insert(root, 1);
    let b = pos.insert(root, 2);
    let a0 = pos.insert(a, 3);
    let a00 = pos.insert(a0, 4);
    let _b0 = pos.insert(b, 5);

    let conversions = std::cell::Cell::new(0usize);
    let products = std::cell::Cell::new(0usize);
    let count_same = |t: &i64| {
        conversions.set(conversions.get() + 1);
        *t
    };
    let count_sum = |x: &i64, y: &i64| {
        products.set(products.get() + 1);
        *x + *y
    };

    let flat = pos.to_positions(&count_same, &count_sum);
    assert_eq!(flat.len(), 6);
    assert_eq!(conversions.get(), 6);
    assert_eq!(products.get(), 5);

    conversions.set(0);
    products.set(0);
    assert_eq!(pos.get_mat(a00, &count_same, &count_sum), 8);
    assert_eq!(conversions.get(), 4);
    assert_eq!(products.get(), 3);

    conversions.set(0);
    products.set(0);
    assert_eq!(pos.get_mat(root, &count_same, &count_sum), 0);
    assert_eq!(conversions.get(), 1);
    assert_eq!(products.get(), 0);
}
