use snowmew::entity::{Entity, Operation};
use snowmew::parent::{CycleError, Message, Parent, ParentData};
use snowmew::system::{System, SystemHandle};

fn ent(i: u64) -> Entity {
    Entity::from_id(i)
}

fn root(e: Entity) -> Message {
    Operation::Upsert(e, Parent::Root)
}

fn child(e: Entity, p: Entity) -> Message {
    Operation::Upsert(e, Parent::Child(p))
}

/// A parent system run through the double-buffered pipeline: the back buffer
/// is two frames old, so each fold replays the previous frame's messages first.
struct ParentPipeline {
    system: System<Message, ParentData>,
    handle: Option<SystemHandle>,
    last: Vec<Message>,
}

impl ParentPipeline {
    fn new() -> ParentPipeline {
        let (system, handle) = System::new(ParentData::new(), ParentData::new());
        ParentPipeline { system, handle: Some(handle), last: Vec::new() }
    }

    fn write(&mut self, m: Message) {
        self.system.send(self.handle.as_ref().unwrap(), m).unwrap();
    }

    fn next_frame(&mut self) {
        let handle = self.handle.take().unwrap();
        let next = self.system.next_frame(handle).unwrap();
        let (mut back, msgs) = self.system.begin_fold().unwrap();
        back.catch_up(&self.last, &msgs).unwrap();
        self.system.publish(back).unwrap();
        self.last = msgs;
        self.handle = Some(self.system.resolve(next).unwrap());
    }

    fn read(&self, e: Entity) -> Option<Parent> {
        self.system.front().read(e)
    }
}

#[test]
fn parent_add_children() {
    let mut pd = ParentData::new();
    let r = ent(1);
    let c = ent(2);
    pd.apply_parent(&vec![root(r), child(c, r)]).unwrap();
    assert_eq!(pd.read(r).unwrap(), Parent::Root);
    assert_eq!(pd.read(c).unwrap(), Parent::Child(r));
}

#[test]
fn parent_delete_children() {
    let mut pd = ParentData::new();
    let root0 = ent(1);
    let child0 = ent(2);
    let root1 = ent(3);
    let child1 = ent(4);
    pd.apply_parent(&vec![
        root(root0),
        child(child0, root0),
        Operation::Delete(root0),
        root(root1),
        child(child1, root1),
        Operation::Delete(child1),
    ])
    .unwrap();
    assert_eq!(pd.read(root0), None);
    assert_eq!(pd.read(child0), None);
    assert_eq!(pd.read(root1).unwrap(), Parent::Root);
    assert_eq!(pd.read(child1), None);
}

#[test]
fn parent_huge_number_of_children() {
    let mut pd = ParentData::new();
    let r = ent(0);
    let mut msgs = vec![root(r)];
    let mut p = r;
    let mut children = Vec::new();
    for i in 1..=1_000u64 {
        let c = ent(i);
        msgs.push(child(c, p));
        p = c;
        children.push(c);
    }
    pd.apply_parent(&msgs).unwrap();

    assert_eq!(pd.read(r).unwrap(), Parent::Root);
    p = r;
    for c in children.iter() {
        assert_eq!(pd.read(*c).unwrap(), Parent::Child(p));
        p = *c;
    }

    pd.apply_parent(&vec![Operation::Delete(r)]).unwrap();
    assert_eq!(pd.read(r), None);
    for c in children.iter() {
        assert_eq!(pd.read(*c), None);
    }
}

#[test]
fn test_add_children() {
    let mut pipe = ParentPipeline::new();
    let r = ent(1);
    let c = ent(2);
    pipe.write(root(r));
    pipe.write(child(c, r));
    pipe.next_frame();
    assert_eq!(pipe.read(r).unwrap(), Parent::Root);
    assert_eq!(pipe.read(c).unwrap(), Parent::Child(r));
}

#[test]
fn test_delete_children() {
    let mut pipe = ParentPipeline::new();
    let root0 = ent(1);
    let child0 = ent(2);
    let root1 = ent(3);
    let child1 = ent(4);
    pipe.write(root(root0));
    pipe.write(child(child0, root0));
    pipe.write(Operation::Delete(root0));
    pipe.write(root(root1));
    pipe.write(child(child1, root1));
    pipe.write(Operation::Delete(child1));
    pipe.next_frame();
    assert_eq!(pipe.read(root0), None);
    assert_eq!(pipe.read(child0), None);
    assert_eq!(pipe.read(root1).unwrap(), Parent::Root);
    assert_eq!(pipe.read(child1), None);
}

#[test]
fn test_huge_number_of_children() {
    let mut pipe = ParentPipeline::new();
    let r = ent(0);
    pipe.write(root(r));
    let mut p = r;
    let mut children = Vec::new();
    for i in 1..=1_000u64 {
        let c = ent(i);
        pipe.write(child(c, p));
        p = c;
        children.push(c);
    }
    pipe.next_frame();

    assert_eq!(pipe.read(r).unwrap(), Parent::Root);
    p = r;
    for c in children.iter() {
        assert_eq!(pipe.read(*c).unwrap(), Parent::Child(p));
        p = *c;
    }

    pipe.write(Operation::Delete(r));
    pipe.next_frame();
    assert_eq!(pipe.read(r), None);
    for c in children.iter() {
        assert_eq!(pipe.read(*c), None);
    }
}

#[test]
fn writing_a_pair_twice_is_writing_it_once() {
    let r = ent(1);
    let c = ent(2);
    let mut once = ParentData::new();
    once.apply_parent(&vec![root(r), child(c, r)]).unwrap();
    let mut twice = ParentData::new();
    twice.apply_parent(&vec![root(r), child(c, r), child(c, r), root(r)]).unwrap();
    assert_eq!(once.read(c), twice.read(c));
    assert_eq!(once.read(r), twice.read(r));
    assert_eq!(once.children(r), twice.children(r));
    assert_eq!(twice.children(r), Some(vec![c]));
}

#[test]
fn child_then_root_leaves_the_old_parent() {
    let mut pd = ParentData::new();
    let p = ent(1);
    let e = ent(2);
    pd.apply_parent(&vec![root(p), child(e, p)]).unwrap();
    assert!(pd.is_child(p, e));
    pd.apply_parent(&vec![root(e)]).unwrap();
    assert!(!pd.is_child(p, e));
    assert_eq!(pd.children(p), Some(vec![]));
    assert_eq!(pd.read(e), Some(Parent::Root));
    assert_eq!(pd.modified(e), Some(Some(Parent::Child(p))));
}

#[test]
fn deleting_a_subtree_records_every_entity() {
    let mut pd = ParentData::new();
    let (a, b, c, d, x) = (ent(1), ent(2), ent(3), ent(4), ent(5));
    pd.apply_parent(&vec![root(a), child(b, a), child(c, b), child(d, a), root(x)]).unwrap();
    pd.apply_parent(&vec![Operation::Delete(b)]).unwrap();
    assert_eq!(pd.read(b), None);
    assert_eq!(pd.read(c), None);
    assert_eq!(pd.deleted(b), Some(Some(Parent::Child(a))));
    assert_eq!(pd.deleted(c), Some(Some(Parent::Child(b))));
    assert_eq!(pd.deleted(d), None);
    assert_eq!(pd.children(b), None);
    assert_eq!(pd.children(a), Some(vec![d]));
    assert_eq!(pd.read(d), Some(Parent::Child(a)));

    pd.apply_parent(&vec![Operation::Delete(a)]).unwrap();
    assert_eq!(pd.read(a), None);
    assert_eq!(pd.read(d), None);
    assert_eq!(pd.deleted(a), Some(Some(Parent::Root)));
    assert_eq!(pd.deleted(b), None);
    assert_eq!(pd.read(x), Some(Parent::Root));
}

#[test]
fn a_loop_is_refused() {
    let mut pd = ParentData::new();
    let (a, b, c) = (ent(1), ent(2), ent(3));
    pd.apply_parent(&vec![root(a), child(b, a), child(c, b)]).unwrap();
    assert_eq!(pd.write(child(a, c)), Err(CycleError { child: a, parent: c }));
    assert_eq!(pd.write(child(a, a)), Err(CycleError { child: a, parent: a }));
    assert_eq!(pd.read(a), Some(Parent::Root));
    assert_eq!(pd.apply_parent(&vec![child(b, c)]), Err(CycleError { child: b, parent: c }));
    assert_eq!(pd.read(b), Some(Parent::Child(a)));
}

#[test]
fn records_are_per_frame() {
    let mut pd = ParentData::new();
    let (a, b) = (ent(1), ent(2));
    pd.apply_parent(&vec![root(a), child(b, a)]).unwrap();
    assert_eq!(pd.modified(a), Some(None));
    assert_eq!(pd.modified(b), Some(None));
    pd.apply_parent(&vec![]).unwrap();
    assert_eq!(pd.modified(a), None);
    assert_eq!(pd.deleted(a), None);
}

#[test]
fn a_frame_lists_its_deleted_and_rebound_entities() {
    let mut pd = ParentData::new();
    let (a, b, c, d) = (ent(1), ent(2), ent(3), ent(4));
    pd.apply_parent(&vec![root(a), child(b, a), child(c, b), root(d)]).unwrap();
    let mut modified = pd.modified_entities();
    modified.sort_by_key(|e| e.id());
    assert_eq!(modified, vec![a, b, c, d]);
    pd.apply_parent(&vec![Operation::Delete(b), child(d, a)]).unwrap();
    let mut deleted = pd.deleted_entities();
    deleted.sort_by_key(|e| e.id());
    assert_eq!(deleted, vec![b, c]);
    assert_eq!(pd.modified_entities(), vec![d]);
}

#[test]
fn deleting_twice_in_a_frame_records_no_parent_the_second_time() {
    let mut pd = ParentData::new();
    let (a, b) = (ent(1), ent(2));
    pd.apply_parent(&vec![root(a), child(b, a)]).unwrap();
    pd.apply_parent(&vec![Operation::Delete(b), Operation::Delete(b)]).unwrap();
    assert_eq!(pd.deleted(b), Some(None));
    pd.apply_parent(&vec![child(b, a), Operation::Delete(b)]).unwrap();
    assert_eq!(pd.deleted(b), Some(Some(Parent::Child(a))));
}

#[test]
fn a_refused_frame_stops_before_the_loop() {
    let mut pd = ParentData::new();
    let (a, b, c) = (ent(1), ent(2), ent(3));
    pd.apply_parent(&vec![root(a), child(b, a)]).unwrap();
    let r = pd.apply_parent(&vec![root(c), child(a, b), child(c, a)]);
    assert_eq!(r, Err(CycleError { child: a, parent: b }));
    assert_eq!(pd.read(c), Some(Parent::Root));
    assert_eq!(pd.read(a), Some(Parent::Root));
    assert_eq!(pd.modified(c), Some(None));
}
