use artisan::system::{Access, EventReader, EventWriter, Events, Res, ResMut};

#[test]
fn readers_of_one_type_are_compatible() {
    let a = Access::reading(1);
    let b = Access::reading(1);
    assert!(a.is_compatible_with(&b));
}

#[test]
fn writer_conflicts_with_reader_and_writer() {
    let w = Access::writing(1);
    let r = Access::reading(1);
    let w2 = Access::writing(1);
    assert!(!w.is_compatible_with(&r));
    assert!(!r.is_compatible_with(&w));
    assert!(!w.is_compatible_with(&w2));
    assert!(w.is_compatible_with(&Access::writing(2)));
}

#[test]
fn merge_unions_both_sets() {
    let mut a = Access::reading(1);
    a.merge(&Access::writing(2));
    a.merge(&Access::reading(3));
    assert!(a.reads.contains(&1) && a.reads.contains(&3));
    assert!(a.writes.contains(&2));
    assert_eq!(a.reads.len(), 2);
    assert!(!a.is_compatible_with(&Access::reading(2)));
    assert!(a.is_compatible_with(&Access::reading(1)));
    let empty = Access::new();
    assert!(empty.is_compatible_with(&a));
}

#[test]
fn events_live_for_two_frames() {
    let mut ev: Events<u32> = Events::new();
    {
        let mut wr = EventWriter { events: &mut ev };
        wr.send(1);
        wr.send(2);
    }
    {
        let rd = EventReader { events: &ev };
        assert_eq!(rd.read(), vec![&1, &2]);
    }
    ev.update();
    {
        let mut wr = EventWriter { events: &mut ev };
        wr.send(3);
    }
    {
        let rd = EventReader { events: &ev };
        assert_eq!(rd.read(), vec![&1, &2, &3]);
    }
    ev.update();
    {
        let rd = EventReader { events: &ev };
        assert_eq!(rd.read(), vec![&3]);
    }
    ev.update();
    assert!(ev.current.is_empty() && ev.previous.is_empty());
}

#[test]
fn resource_handles_read_and_write() {
    let x = 5u32;
    let r = Res { value: &x };
    assert_eq!(*r.get(), 5);
    let mut y = 1u32;
    {
        let mut m = ResMut { value: &mut y };
        assert_eq!(*m.get(), 1);
        m.set(9);
    }
    assert_eq!(y, 9);
}
