use snowmew::entity::{Entity, Operation};
use snowmew::parent::{Parent, ParentData};
use snowmew::system::{Published, System};
use snowmew::transform::{Delta, MissingComponent, TransformData};

fn ent(i: u64) -> Entity {
    Entity::from_id(i)
}

fn one() -> Delta {
    Delta::translate(1, 1, 1)
}

fn minus_one() -> Delta {
    Delta::translate(-1, -1, -1)
}

/// One frame: the hierarchy first, then the transforms against it.
fn frame(
    pd: &mut ParentData,
    td: &mut TransformData,
    parents: Vec<Operation<Parent>>,
    locals: Vec<Operation<Delta>>,
) -> usize {
    pd.apply_parent(&parents).unwrap();
    td.update(pd, &locals)
}

fn origin(td: &TransformData, e: Entity) -> (i64, i64, i64) {
    td.world(e).unwrap().transform_point(0, 0, 0)
}

#[test]
fn children() {
    let mut pd = ParentData::new();
    let mut td = TransformData::new();
    let es: Vec<Entity> = (0..5).map(ent).collect();
    let mut parents = Vec::new();
    let mut locals = Vec::new();
    for i in 0..5 {
        locals.push(Operation::Upsert(es[i], one()));
        if i > 0 {
            parents.push(Operation::Upsert(es[i], Parent::Child(es[i - 1])));
        }
    }
    frame(&mut pd, &mut td, parents, locals);
    assert_eq!(origin(&td, es[0]), (1, 1, 1));
    assert_eq!(origin(&td, es[1]), (2, 2, 2));
    assert_eq!(origin(&td, es[2]), (3, 3, 3));
    assert_eq!(origin(&td, es[3]), (4, 4, 4));
    assert_eq!(origin(&td, es[4]), (5, 5, 5));
}

#[test]
fn children_tree() {
    let mut pd = ParentData::new();
    let mut td = TransformData::new();
    let (e0, e1, e2, e3, e4, e5) = (ent(0), ent(1), ent(2), ent(3), ent(4), ent(5));
    let parents = vec![
        Operation::Upsert(e2, Parent::Child(e0)),
        Operation::Upsert(e3, Parent::Child(e0)),
        Operation::Upsert(e4, Parent::Child(e1)),
        Operation::Upsert(e5, Parent::Child(e1)),
    ];
    let locals = vec![
        Operation::Upsert(e0, one()),
        Operation::Upsert(e1, minus_one()),
        Operation::Upsert(e2, one()),
        Operation::Upsert(e3, minus_one()),
        Operation::Upsert(e4, one()),
        Operation::Upsert(e5, minus_one()),
    ];
    frame(&mut pd, &mut td, parents, locals);
    assert_eq!(origin(&td, e2), (2, 2, 2));
    assert_eq!(origin(&td, e3), (0, 0, 0));
    assert_eq!(origin(&td, e4), (0, 0, 0));
    assert_eq!(origin(&td, e5), (-2, -2, -2));
}

#[test]
fn exit() {
    let (mut system, handle) = System::<Operation<Delta>, TransformData>::new(TransformData::new(), TransformData::new());
    system.drop_handle(handle);
    let (back, _msgs) = system.begin_fold().unwrap();
    assert_eq!(system.publish(back), Ok(Published::Exited));
}

#[test]
fn dirty_count() {
    let mut pd = ParentData::new();
    let mut td = TransformData::new();
    let es: Vec<Entity> = (0..10).map(ent).collect();
    let mut parents = Vec::new();
    let mut locals = Vec::new();
    for i in 0..10 {
        locals.push(Operation::Upsert(es[i], one()));
        if i > 0 {
            parents.push(Operation::Upsert(es[i], Parent::Child(es[i - 1])));
        }
    }
    assert_eq!(10, frame(&mut pd, &mut td, parents, locals));
    for i in 0..10 {
        let solved = frame(&mut pd, &mut td, vec![], vec![Operation::Upsert(es[i], one())]);
        assert_eq!(10 - i, solved);
    }
    assert_eq!(0, frame(&mut pd, &mut td, vec![], vec![]));
}

#[test]
fn changing_an_ancestor_recomputes_below_it() {
    let mut pd = ParentData::new();
    let mut td = TransformData::new();
    let (a, b, c) = (ent(1), ent(2), ent(3));
    frame(
        &mut pd,
        &mut td,
        vec![Operation::Upsert(b, Parent::Child(a)), Operation::Upsert(c, Parent::Child(b))],
        vec![Operation::Upsert(a, one()), Operation::Upsert(b, one()), Operation::Upsert(c, one())],
    );
    assert_eq!(origin(&td, c), (3, 3, 3));
    let solved = frame(&mut pd, &mut td, vec![], vec![Operation::Upsert(b, Delta::translate(10, 0, -5))]);
    assert_eq!(solved, 2);
    assert_eq!(origin(&td, a), (1, 1, 1));
    assert_eq!(origin(&td, b), (11, 1, -4));
    assert_eq!(origin(&td, c), (12, 2, -3));
}

#[test]
fn reparenting_recomputes_the_subtree() {
    let mut pd = ParentData::new();
    let mut td = TransformData::new();
    let (a, b, c, d) = (ent(1), ent(2), ent(3), ent(4));
    frame(
        &mut pd,
        &mut td,
        vec![Operation::Upsert(c, Parent::Child(a)), Operation::Upsert(d, Parent::Child(c))],
        vec![
            Operation::Upsert(a, one()),
            Operation::Upsert(b, Delta::translate(5, 5, 5)),
            Operation::Upsert(c, one()),
            Operation::Upsert(d, one()),
        ],
    );
    assert_eq!(origin(&td, d), (3, 3, 3));
    let solved = frame(&mut pd, &mut td, vec![Operation::Upsert(c, Parent::Child(b))], vec![]);
    assert_eq!(solved, 2);
    assert_eq!(origin(&td, c), (6, 6, 6));
    assert_eq!(origin(&td, d), (7, 7, 7));
}

#[test]
fn scale_applies_to_the_child() {
    let mut pd = ParentData::new();
    let mut td = TransformData::new();
    let (a, b) = (ent(1), ent(2));
    let scaled = Delta { scale: 2, x: 1, y: 0, z: 0 };
    frame(
        &mut pd,
        &mut td,
        vec![Operation::Upsert(b, Parent::Child(a))],
        vec![Operation::Upsert(a, scaled), Operation::Upsert(b, Delta::translate(3, 4, 5))],
    );
    assert_eq!(origin(&td, b), (7, 8, 10));
    assert_eq!(td.world(b).unwrap().transform_point(1, 1, 1), (9, 10, 12));
    assert_eq!(td.world(b).unwrap().scale, 2);
}

#[test]
fn deleted_entities_leave_the_table() {
    let mut pd = ParentData::new();
    let mut td = TransformData::new();
    let (a, b) = (ent(1), ent(2));
    frame(
        &mut pd,
        &mut td,
        vec![Operation::Upsert(a, Parent::Root), Operation::Upsert(b, Parent::Child(a))],
        vec![Operation::Upsert(a, one()), Operation::Upsert(b, one())],
    );
    assert_eq!(frame(&mut pd, &mut td, vec![Operation::Delete(a)], vec![]), 0);
    assert_eq!(td.local(a), None);
    assert_eq!(td.local(b), None);
    assert_eq!(td.world(b), None);
}

#[test]
fn a_missing_local_is_reported() {
    let mut pd = ParentData::new();
    let mut td = TransformData::new();
    let (a, b, c) = (ent(1), ent(2), ent(3));
    let solved = frame(
        &mut pd,
        &mut td,
        vec![Operation::Upsert(b, Parent::Child(a))],
        vec![Operation::Upsert(b, one()), Operation::Upsert(c, one())],
    );
    assert_eq!(solved, 1);
    assert_eq!(td.world(b), None);
    assert_eq!(td.local(b), Some(one()));
    assert_eq!(td.unsolved(), vec![MissingComponent { entity: b }]);
    assert_eq!(origin(&td, c), (1, 1, 1));
    assert_eq!(frame(&mut pd, &mut td, vec![], vec![Operation::Upsert(a, one())]), 2);
    assert_eq!(origin(&td, b), (2, 2, 2));
    assert!(td.unsolved().is_empty());
}

#[test]
fn deleting_a_local_unsolves_its_children() {
    let mut pd = ParentData::new();
    let mut td = TransformData::new();
    let (a, b) = (ent(1), ent(2));
    frame(
        &mut pd,
        &mut td,
        vec![Operation::Upsert(b, Parent::Child(a))],
        vec![Operation::Upsert(a, one()), Operation::Upsert(b, one())],
    );
    assert_eq!(frame(&mut pd, &mut td, vec![], vec![Operation::Delete(a)]), 0);
    assert_eq!(td.world(b), None);
    assert_eq!(td.unsolved(), vec![MissingComponent { entity: b }]);
}
