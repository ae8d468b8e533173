use rigfarm::registry::{ChannelGroup, Registry, ServerMessage};

fn texts(messages: Vec<ServerMessage>) -> Vec<String> {
    messages.into_iter().map(|m| m.0).collect()
}

#[test]
fn join_hands_out_sequential_handles() {
    let mut reg = Registry::new();
    let a = reg.join(ChannelGroup::Rig);
    let b = reg.join(ChannelGroup::Frontend);
    let c = reg.join(ChannelGroup::Rig);
    assert_eq!(a, 0);
    assert_eq!(b, 1);
    assert_eq!(c, 2);
    assert_eq!(reg.member_handles(ChannelGroup::Rig), vec![a, c]);
    assert_eq!(reg.member_handles(ChannelGroup::Frontend), vec![b]);
}

#[test]
fn leave_removes_exactly_one_member() {
    let mut reg = Registry::new();
    let a = reg.join(ChannelGroup::Rig);
    let b = reg.join(ChannelGroup::Rig);
    reg.leave(a);
    assert_eq!(reg.member_handles(ChannelGroup::Rig), vec![b]);
    // Leaving again is a harmless no-op.
    reg.leave(a);
    assert_eq!(reg.member_handles(ChannelGroup::Rig), vec![b]);
}

#[test]
fn leave_of_unknown_handle_is_noop_and_touches_no_member() {
    let mut reg = Registry::new();
    let a = reg.join(ChannelGroup::Rig);
    let b = reg.join(ChannelGroup::Frontend);
    reg.leave(999);
    assert_eq!(reg.member_handles(ChannelGroup::Rig), vec![a]);
    assert_eq!(reg.member_handles(ChannelGroup::Frontend), vec![b]);
}

#[test]
fn membership_is_joins_minus_leaves_in_call_order() {
    let mut reg = Registry::new();
    let a = reg.join(ChannelGroup::Rig);
    let b = reg.join(ChannelGroup::Rig);
    reg.leave(a);
    let c = reg.join(ChannelGroup::Rig);
    reg.leave(b);
    assert_eq!(reg.member_handles(ChannelGroup::Rig), vec![c]);
}

#[test]
fn broadcast_reaches_every_member_of_the_group_only() {
    let mut reg = Registry::new();
    let r1 = reg.join(ChannelGroup::Rig);
    let f1 = reg.join(ChannelGroup::Frontend);
    let r2 = reg.join(ChannelGroup::Rig);
    reg.broadcast(ChannelGroup::Rig, &ServerMessage("restart".to_string()));
    assert_eq!(texts(reg.take_outbox(r1)), vec!["restart".to_string()]);
    assert_eq!(texts(reg.take_outbox(r2)), vec!["restart".to_string()]);
    assert_eq!(texts(reg.take_outbox(f1)), Vec::<String>::new());
}

#[test]
fn broadcast_delivers_to_healthy_members_despite_slow_consumer() {
    let mut reg = Registry::new();
    let slow = reg.join(ChannelGroup::Rig);
    let h1 = reg.join(ChannelGroup::Rig);
    let h2 = reg.join(ChannelGroup::Rig);
    // The slow consumer never drains its queue.
    for i in 0..1000 {
        reg.unicast(slow, &ServerMessage(format!("backlog {}", i)));
    }
    reg.broadcast(ChannelGroup::Rig, &ServerMessage("go".to_string()));
    // Both healthy members received the message, whatever the slow one holds.
    assert_eq!(texts(reg.take_outbox(h1)), vec!["go".to_string()]);
    assert_eq!(texts(reg.take_outbox(h2)), vec!["go".to_string()]);
    let slow_queue = texts(reg.take_outbox(slow));
    assert_eq!(slow_queue.len(), 1001);
    assert_eq!(slow_queue[1000], "go");
}

#[test]
fn per_connection_order_is_send_order() {
    let mut reg = Registry::new();
    let a = reg.join(ChannelGroup::Frontend);
    reg.broadcast(ChannelGroup::Frontend, &ServerMessage("one".to_string()));
    reg.unicast(a, &ServerMessage("two".to_string()));
    reg.broadcast(ChannelGroup::Frontend, &ServerMessage("three".to_string()));
    assert_eq!(
        texts(reg.take_outbox(a)),
        vec!["one".to_string(), "two".to_string(), "three".to_string()]
    );
}

#[test]
fn unicast_to_unknown_handle_is_noop() {
    let mut reg = Registry::new();
    let a = reg.join(ChannelGroup::Rig);
    reg.unicast(42, &ServerMessage("lost".to_string()));
    assert_eq!(texts(reg.take_outbox(a)), Vec::<String>::new());
}

#[test]
fn take_outbox_drains_the_queue() {
    let mut reg = Registry::new();
    let a = reg.join(ChannelGroup::Rig);
    reg.unicast(a, &ServerMessage("m".to_string()));
    assert_eq!(texts(reg.take_outbox(a)).len(), 1);
    assert_eq!(texts(reg.take_outbox(a)).len(), 0);
}

#[test]
fn departed_member_gets_no_broadcast() {
    let mut reg = Registry::new();
    let a = reg.join(ChannelGroup::Rig);
    let b = reg.join(ChannelGroup::Rig);
    reg.leave(a);
    reg.broadcast(ChannelGroup::Rig, &ServerMessage("late".to_string()));
    assert_eq!(texts(reg.take_outbox(a)), Vec::<String>::new());
    assert_eq!(texts(reg.take_outbox(b)), vec!["late".to_string()]);
}
