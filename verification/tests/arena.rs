use inets::error::Error;
use inets::net::Net;
use inets::ptr::{Ptr, Tag};

#[test]
fn fresh_net_is_empty() {
    let net = Net::new(4);
    assert_eq!(net.capacity(), 4);
    assert_eq!(net.live_count(), 0);
    assert_eq!(net.root, Ptr::Era);
    assert_eq!(net.rwts, 0);
    assert_eq!(net.dref, 0);
    assert!(net.acts.is_empty());
}

#[test]
fn slots_are_handed_out_in_ascending_order() {
    let mut net = Net::new(3);
    assert_eq!(net.allocate(), Ok(0));
    assert_eq!(net.allocate(), Ok(1));
    assert_eq!(net.allocate(), Ok(2));
    assert_eq!(net.live_count(), 3);
}

#[test]
fn exhausted_arena_reports_out_of_memory() {
    let mut net = Net::new(1);
    assert_eq!(net.allocate(), Ok(0));
    assert_eq!(net.allocate(), Err(Error::OutOfMemory));
    assert_eq!(net.live_count(), 1);
    let mut none = Net::new(0);
    assert_eq!(none.allocate(), Err(Error::OutOfMemory));
}

#[test]
fn freed_slot_is_reused_first() {
    let mut net = Net::new(4);
    let a = net.allocate().unwrap();
    let b = net.allocate().unwrap();
    assert_eq!((a, b), (0, 1));
    assert_eq!(net.free(a), Ok(()));
    assert!(!net.is_live(a));
    assert_eq!(net.live_count(), 1);
    assert_eq!(net.allocate(), Ok(0));
    assert_eq!(net.allocate(), Ok(2));
}

#[test]
fn freeing_twice_is_out_of_range() {
    let mut net = Net::new(2);
    let a = net.allocate().unwrap();
    assert_eq!(net.free(a), Ok(()));
    assert_eq!(net.free(a), Err(Error::OutOfRange(Ptr::Con(a))));
    assert_eq!(net.free(7), Err(Error::OutOfRange(Ptr::Con(7))));
    assert_eq!(net.live_count(), 0);
}

#[test]
fn a_new_agent_holds_erasers() {
    let mut net = Net::new(2);
    let a = net.allocate().unwrap();
    assert_eq!(net.target(Ptr::Aux1(a)), Some(Ptr::Era));
    assert_eq!(net.target(Ptr::Aux2(a)), Some(Ptr::Era));
}

#[test]
fn target_is_none_outside_the_arena() {
    let mut net = Net::new(2);
    net.root = Ptr::Num(9);
    assert_eq!(net.target(Ptr::Root), Some(Ptr::Num(9)));
    assert_eq!(net.target(Ptr::Aux1(1)), Some(Ptr::Era));
    assert_eq!(net.target(Ptr::Aux1(2)), None);
    assert_eq!(net.target(Ptr::Aux2(2)), None);
    assert_eq!(net.target(Ptr::Con(0)), None);
    assert_eq!(net.target(Ptr::Era), None);
}

#[test]
fn read_and_write_need_a_live_agent() {
    let mut net = Net::new(2);
    assert_eq!(net.read(Ptr::Aux1(0)), Err(Error::OutOfRange(Ptr::Aux1(0))));
    assert_eq!(
        net.write(Ptr::Aux1(0), Ptr::Era),
        Err(Error::OutOfRange(Ptr::Aux1(0)))
    );
    let a = net.allocate().unwrap();
    assert_eq!(net.write(Ptr::Aux2(a), Ptr::Num(3)), Ok(()));
    assert_eq!(net.read(Ptr::Aux2(a)), Ok(Ptr::Num(3)));
    assert_eq!(net.read(Ptr::Aux1(a)), Ok(Ptr::Era));
    assert_eq!(net.write(Ptr::Root, Ptr::Con(a)), Ok(()));
    assert_eq!(net.read(Ptr::Root), Ok(Ptr::Con(a)));
    assert_eq!(
        net.write(Ptr::Con(a), Ptr::Era),
        Err(Error::OutOfRange(Ptr::Con(a)))
    );
    assert_eq!(net.read(Ptr::Num(1)), Err(Error::OutOfRange(Ptr::Num(1))));
}

#[test]
fn link_wires_two_ports_to_each_other() {
    let mut net = Net::new(2);
    let a = net.allocate().unwrap();
    let b = net.allocate().unwrap();
    assert_eq!(net.link(Ptr::Aux1(a), Ptr::Aux2(b)), Ok(()));
    assert_eq!(net.target(Ptr::Aux1(a)), Some(Ptr::Aux2(b)));
    assert_eq!(net.target(Ptr::Aux2(b)), Some(Ptr::Aux1(a)));
    assert!(net.acts.is_empty());
}

#[test]
fn link_stores_an_agent_at_a_port() {
    let mut net = Net::new(2);
    let a = net.allocate().unwrap();
    let b = net.allocate().unwrap();
    assert_eq!(net.link(Ptr::Con(b), Ptr::Aux1(a)), Ok(()));
    assert_eq!(net.target(Ptr::Aux1(a)), Some(Ptr::Con(b)));
    assert_eq!(net.link(Ptr::Root, Ptr::Dup(3, a)), Ok(()));
    assert_eq!(net.root, Ptr::Dup(3, a));
    assert!(net.acts.is_empty());
}

#[test]
fn link_of_two_agents_is_a_pending_pair() {
    let mut net = Net::new(2);
    let a = net.allocate().unwrap();
    assert_eq!(net.link(Ptr::Con(a), Ptr::Era), Ok(()));
    assert_eq!(net.acts, vec![(Ptr::Con(a), Ptr::Era)]);
}

#[test]
fn link_to_a_dead_port_is_out_of_range() {
    let mut net = Net::new(2);
    assert_eq!(
        net.link(Ptr::Aux1(1), Ptr::Era),
        Err(Error::OutOfRange(Ptr::Aux1(1)))
    );
    assert_eq!(
        net.link(Ptr::Era, Ptr::Aux2(5)),
        Err(Error::OutOfRange(Ptr::Aux2(5)))
    );
}

#[test]
fn pointer_parts() {
    let p = Ptr::Dup(4, 17);
    assert_eq!(p.tag(), Tag::Dup);
    assert_eq!(p.lab(), 4);
    assert_eq!(p.val(), 17);
    assert!(p.is_ctr());
    assert!(!p.is_var());
    assert!(!p.is_nul());
    assert_eq!(p.at(2), Ptr::Dup(4, 2));
    assert_eq!(Ptr::new(Tag::Vr1, 5), Ptr::Aux1(5));
    assert_eq!(Ptr::new(Tag::Vr2, 5), Ptr::Aux2(5));
    assert_eq!(Ptr::new(Tag::Vrr, 5), Ptr::Root);
    assert_eq!(Ptr::new(Tag::Era, 5), Ptr::Era);
    assert_eq!(Ptr::new(Tag::Ref, 5), Ptr::Ref(5));
    assert_eq!(Ptr::new(Tag::Num, 5), Ptr::Num(5));
    assert_eq!(Ptr::new(Tag::Con, 5), Ptr::Con(5));
    assert_eq!(Ptr::new(Tag::Dup, 5), Ptr::Dup(0, 5));
    assert_eq!(Ptr::new(Tag::Opr, 5), Ptr::Opr(0, 5));
    assert_eq!(Ptr::node(0, 3), Ptr::Con(3));
    assert_eq!(Ptr::node(2, 3), Ptr::Dup(2, 3));
    assert!(Ptr::Era.is_era());
    assert!(!Ptr::Num(0).is_era());
    assert!(Ptr::Ref(1).is_ref());
    assert!(Ptr::Num(1).is_num());
    assert!(Ptr::Root.is_var());
    assert_eq!(Ptr::Root.val(), 0);
    assert_eq!(Ptr::Era.at(9), Ptr::Era);
    assert_eq!(Ptr::Aux1(1).at(9), Ptr::Aux1(9));
}
