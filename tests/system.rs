use snowmew::system::{FoldRefused, ProtocolViolation, Published, System};

#[test]
fn a_reader_that_stays_behind_holds_the_next_fold() {
    let (mut system, h0) = System::<u32, Vec<u32>>::new(Vec::new(), Vec::new());
    let keeper = system.clone_handle(&h0).unwrap();
    system.send(&h0, 1).unwrap();
    let next = system.next_frame(h0).unwrap();
    let (mut back, msgs) = system.begin_fold().unwrap();
    assert_eq!(msgs, vec![1]);
    back.extend(msgs);
    assert_eq!(system.publish(back), Ok(Published::Epoch(1)));
    let h1 = system.resolve(next).unwrap();
    assert_eq!(h1.epoch(), 1);
    assert_eq!(system.front(), &vec![1]);

    // `keeper` still reads epoch 0, the back buffer: no fold may start.
    system.send(&h1, 2).unwrap();
    system.send(&h1, 3).unwrap();
    assert_eq!(system.begin_fold().err(), Some(FoldRefused::Backpressure));
    system.send(&h1, 4).unwrap();
    assert_eq!(system.begin_fold().err(), Some(FoldRefused::Backpressure));

    system.drop_handle(keeper);
    let (_back, msgs) = system.begin_fold().unwrap();
    assert_eq!(msgs, vec![2, 3, 4]);
}

#[test]
fn an_advanced_epoch_refuses_sends() {
    let (mut system, h0) = System::<u32, u32>::new(0, 0);
    let stale = system.clone_handle(&h0).unwrap();
    system.send(&stale, 6).unwrap();
    let next = system.next_frame(h0).unwrap();
    assert!(system.resolve(next).is_none());
    // Once one handle of epoch 0 advanced, every handle of epoch 0 is stale.
    assert_eq!(system.send(&stale, 7), Err(ProtocolViolation::StaleHandle));
    let (_back, msgs) = system.begin_fold().unwrap();
    assert_eq!(msgs, vec![6]);
    assert_eq!(system.begin_fold().err(), Some(FoldRefused::Folding));
    assert_eq!(system.publish(1), Ok(Published::Epoch(1)));
    assert_eq!(system.send(&stale, 8), Err(ProtocolViolation::StaleHandle));
    let h1 = system.resolve(next).unwrap();
    system.send(&h1, 9).unwrap();
    system.drop_handle(stale);
    let (_back, msgs) = system.begin_fold().unwrap();
    assert_eq!(msgs, vec![9]);
}

#[test]
fn each_handle_reads_its_own_epoch() {
    let (mut system, h0) = System::<u32, &str>::new("zero", "spare");
    assert_eq!(system.read(&h0), Some(&"zero"));
    let old = system.clone_handle(&h0).unwrap();
    let next = system.next_frame(h0).unwrap();
    let (back, _msgs) = system.begin_fold().unwrap();
    assert_eq!(back, "spare");
    assert_eq!(system.read(&old), Some(&"zero"));
    assert_eq!(system.publish("one"), Ok(Published::Epoch(1)));
    let h1 = system.resolve(next).unwrap();
    assert_eq!(system.read(&h1), Some(&"one"));
    assert_eq!(system.front(), &"one");
    assert_eq!(system.read(&old), Some(&"zero"));
    system.send(&h1, 5).unwrap();
    assert_eq!(system.read(&old), Some(&"zero"));
    assert_eq!(system.read(&h1), Some(&"one"));
    system.drop_handle(old);
    let (back, _msgs) = system.begin_fold().unwrap();
    assert_eq!(back, "zero");
}

#[test]
fn publish_needs_a_fold() {
    let (mut system, _h) = System::<u32, u32>::new(0, 0);
    assert_eq!(system.publish(5), Err(ProtocolViolation::NotFolding));
}

#[test]
fn no_handle_left_shuts_down() {
    let (mut system, h) = System::<u32, u32>::new(0, 0);
    let spare = system.clone_handle(&h).unwrap();
    system.drop_handle(h);
    system.send(&spare, 1).unwrap();
    system.drop_handle(spare);
    let (_back, _msgs) = system.begin_fold().unwrap();
    assert_eq!(system.publish(1), Ok(Published::Exited));
    assert_eq!(system.begin_fold().err(), Some(FoldRefused::Exited));
    let (_other, foreign) = System::<u32, u32>::new(0, 0);
    assert_eq!(system.send(&foreign, 2), Err(ProtocolViolation::Exited));
}

#[test]
fn a_handle_left_behind_catches_up() {
    let (mut system, h0) = System::<u32, u32>::new(0, 0);
    let behind = system.clone_handle(&h0).unwrap();
    let next = system.next_frame(h0).unwrap();
    let (_back, _msgs) = system.begin_fold().unwrap();
    assert_eq!(system.publish(1), Ok(Published::Epoch(1)));
    let h1 = system.resolve(next).unwrap();
    assert_eq!(system.begin_fold().err(), Some(FoldRefused::Backpressure));
    let caught_up = system.next_frame(behind).unwrap();
    assert_eq!(caught_up, 1);
    let h1b = system.resolve(caught_up).unwrap();
    assert_eq!(h1b.epoch(), h1.epoch());
    assert!(system.begin_fold().is_ok());
}
