use branch::{
    Bureau, BureauOptions, Effect, Mat3, Message, NoSuchSession, Position, RegisterError, SessionRegistry,
    Vec3, NO_TARGET,
};

fn at(x: i32, y: i32, z: i32) -> Position {
    let bits = [(x as f32).to_bits(), (y as f32).to_bits(), (z as f32).to_bits()];
    Position::new(Vec3::new(x, y, z), bits)
}

fn world(n: usize, radius: u32) -> (Bureau, Vec<i32>) {
    let mut b = Bureau::new(BureauOptions { max_players: 16, aura_radius: radius });
    let mut ids = Vec::new();
    for _ in 0..n {
        ids.push(b.registry.register().unwrap());
    }
    (b, ids)
}

fn recipients(e: &Effect) -> Vec<i32> {
    match e {
        Effect::Send { to, .. } => to.clone(),
        _ => panic!("not a send: {:?}", e),
    }
}

fn count_user_left_to(effects: &[Effect], to_id: i32, left: i32) -> usize {
    effects
        .iter()
        .filter(|e| match e {
            Effect::Send { to, msg: Message::UserLeft { id } } => to == &vec![to_id] && *id == left,
            _ => false,
        })
        .count()
}

fn count_joined_to(effects: &[Effect], to_id: i32, joined: i32) -> usize {
    effects
        .iter()
        .filter(|e| match e {
            Effect::Send { to, msg: Message::UserJoined { id, .. } } => to == &vec![to_id] && *id == joined,
            _ => false,
        })
        .count()
}

#[test]
fn ids_are_unique_and_ascending() {
    let (b, ids) = world(3, 10);
    assert_eq!(ids, vec![1, 2, 3]);
    assert_eq!(b.registry.len(), 3);
    assert!(b.registry.contains(2));
    assert!(!b.registry.contains(4));
}

#[test]
fn register_refused_at_capacity() {
    let mut b = Bureau::new(BureauOptions { max_players: 2, aura_radius: 10 });
    assert_eq!(b.registry.register(), Ok(1));
    assert_eq!(b.registry.register(), Ok(2));
    assert!(b.registry.is_full());
    assert_eq!(b.registry.register(), Err(RegisterError::Full));
    assert_eq!(b.registry.len(), 2);
}

#[test]
fn negative_capacity_admits_nobody() {
    let mut b = Bureau::new(BureauOptions { max_players: -1, aura_radius: 10 });
    assert_eq!(b.registry.register(), Err(RegisterError::Full));
}

#[test]
fn register_refused_when_ids_run_out() {
    let mut r = SessionRegistry::new(4);
    r.next_id = i32::MAX;
    assert_eq!(r.register(), Err(RegisterError::IdsExhausted));
    assert_eq!(r.len(), 0);
}

#[test]
fn fresh_session_is_blank() {
    let (b, ids) = world(1, 10);
    let s = &b.registry.sessions[0];
    assert_eq!(s.id, ids[0]);
    assert!(s.name.is_empty() && s.avatar.is_empty() && s.character_data.is_empty());
    assert!(s.aura.is_empty());
    assert!(s.connected && !s.departed);
    assert_eq!(s.pos.at, Vec3::new(0, 0, 0));
    assert_eq!(s.pos.bits, [0, 0, 0]);
}

#[test]
fn accessors_fail_on_unknown_id() {
    let (mut b, _) = world(1, 10);
    assert!(matches!(b.registry.position(9), Err(NoSuchSession)));
    assert_eq!(b.registry.set_position(9, at(1, 1, 1)), Err(NoSuchSession));
    assert!(b.registry.rotation(9).is_err());
    assert_eq!(b.registry.set_rotation(9, Mat3::new()), Err(NoSuchSession));
    assert_eq!(b.registry.disconnect(9), Err(NoSuchSession));
    assert_eq!(b.registry.aura_of(9), Err(NoSuchSession));
}

#[test]
fn accessors_read_back_what_was_set() {
    let (mut b, ids) = world(2, 10);
    let exact = Position::new(Vec3::new(4, -5, 6), [0.0041f32.to_bits(), (-0.005f32).to_bits(), 0.006f32.to_bits()]);
    assert_eq!(b.registry.set_position(ids[1], exact), Ok(()));
    let back = b.registry.position(ids[1]).unwrap();
    assert_eq!(back.at, Vec3::new(4, -5, 6));
    assert_eq!(back.bits, exact.bits);
    assert_eq!(b.registry.position(ids[0]).unwrap().at, Vec3::new(0, 0, 0));
    let mut m = Mat3::new();
    m.data[4] = 0x3f80_0000;
    assert_eq!(b.registry.set_rotation(ids[0], m), Ok(()));
    assert_eq!(b.registry.rotation(ids[0]).unwrap().data[4], 0x3f80_0000);
    assert_eq!(b.registry.disconnect(ids[0]), Ok(()));
    assert!(!b.registry.sessions[0].connected);
}

#[test]
fn distance_is_exact() {
    assert_eq!(Vec3::new(0, 0, 0).distance_sqr(&Vec3::new(3, 4, 0)), 25);
    assert_eq!(Vec3::new(1, 2, 3).distance_sqr(&Vec3::new(-1, -2, -3)), 56);
    let far = Vec3::new(i32::MIN, i32::MIN, i32::MIN).distance_sqr(&Vec3::new(i32::MAX, i32::MAX, i32::MAX));
    assert_eq!(far, 3 * (u32::MAX as u128) * (u32::MAX as u128));
    assert!(Vec3::new(0, 0, 0).is_within(&Vec3::new(3, 4, 0), 5));
    assert!(!Vec3::new(0, 0, 0).is_within(&Vec3::new(3, 4, 1), 5));
}

#[test]
fn aura_boundary_is_included() {
    let (mut b, ids) = world(2, 5);
    b.position_update(ids[1], at(3, 4, 0));
    assert!(b.registry.is_in_aura(ids[0], ids[1]));
    assert!(b.registry.is_in_aura(ids[1], ids[0]));
}

#[test]
fn aura_enter_then_leave_notifies_once_each() {
    let (mut b, ids) = world(2, 100);
    let (a, c) = (ids[0], ids[1]);
    b.position_update(a, at(1000, 0, 0));
    assert!(!b.registry.is_in_aura(a, c));

    let enter = b.position_update(a, at(99, 0, 0));
    assert!(b.registry.is_in_aura(a, c) && b.registry.is_in_aura(c, a));
    assert_eq!(count_joined_to(&enter, c, a), 1);
    assert_eq!(count_joined_to(&enter, a, c), 1);
    let entered = enter.iter().filter(|e| matches!(e, Effect::AuraEntered { .. })).count();
    assert_eq!(entered, 1);

    let stay = b.position_update(a, at(50, 0, 0));
    assert_eq!(count_joined_to(&stay, c, a), 0);

    let leave = b.position_update(a, at(101, 0, 0));
    assert!(!b.registry.is_in_aura(a, c) && !b.registry.is_in_aura(c, a));
    assert_eq!(count_user_left_to(&leave, c, a), 1);
    assert_eq!(count_user_left_to(&leave, a, c), 1);
    let left = leave.iter().filter(|e| matches!(e, Effect::AuraLeft { .. })).count();
    assert_eq!(left, 1);
}

#[test]
fn aura_enter_sends_identity_and_character() {
    let (mut b, ids) = world(2, 10);
    b.new_user(ids[0], "ann".to_string(), "cat".to_string());
    b.character_update(ids[0], "ears".to_string());
    b.position_update(ids[1], at(100, 0, 0));
    let e = b.position_update(ids[1], at(1, 0, 0));
    let mut saw_identity = false;
    let mut saw_character = false;
    for x in &e {
        match x {
            Effect::Send { to, msg: Message::UserJoined { id, avatar, name } } if to == &vec![ids[1]] => {
                assert_eq!((*id, avatar.as_str(), name.as_str()), (ids[0], "cat", "ann"));
                saw_identity = true;
            }
            Effect::Send { to, msg: Message::CharacterUpdate { from, data } } if to == &vec![ids[1]] => {
                assert_eq!((*from, data.as_str()), (ids[0], "ears"));
                saw_character = true;
            }
            _ => {}
        }
    }
    assert!(saw_identity && saw_character);
}

#[test]
fn aura_stays_symmetric_across_moves() {
    let (mut b, ids) = world(4, 10);
    let moves = [(0, 0, 0), (5, 0, 0), (20, 0, 0), (11, 0, 0)];
    for (k, (x, y, z)) in moves.iter().enumerate() {
        b.position_update(ids[k], at(*x, *y, *z));
    }
    b.transform_update(ids[2], Mat3::new(), at(3, 0, 0));
    for &p in &ids {
        for &q in &ids {
            assert_eq!(b.registry.is_in_aura(p, q), b.registry.is_in_aura(q, p));
        }
    }
}

#[test]
fn position_update_goes_to_aura_only() {
    let (mut b, ids) = world(3, 10);
    b.position_update(ids[2], at(500, 0, 0));
    let e = b.position_update(ids[0], at(1, 1, 1));
    let last = e.last().unwrap();
    assert_eq!(recipients(last), vec![ids[1]]);
    match last {
        Effect::Send { msg: Message::PositionUpdate { from, pos }, .. } => {
            assert_eq!((*from, pos.at, pos.bits), (ids[0], Vec3::new(1, 1, 1), at(1, 1, 1).bits));
        }
        _ => panic!("expected a position update"),
    }
}

fn linked_world() -> (Bureau, Vec<i32>) {
    // 1 and 2 are near each other; 3 is far away.
    let (mut b, ids) = world(3, 10);
    b.position_update(ids[2], at(1000, 0, 0));
    b.position_update(ids[0], at(1, 0, 0));
    (b, ids)
}

fn appl(b: &Bureau, user: i32, strategy: u8, target: i32) -> Option<Vec<i32>> {
    let e = b.appl_specific(user, strategy, target, "m".to_string(), "s".to_string(), 7);
    assert!(e.len() <= 1);
    e.first().map(recipients)
}

#[test]
fn routing_with_ordinary_target() {
    let (b, ids) = linked_world();
    let (u, near, far) = (ids[0], ids[1], ids[2]);
    assert_eq!(appl(&b, u, 0, far), Some(vec![u, near]));
    assert_eq!(appl(&b, u, 1, far), Some(vec![near]));
    assert_eq!(appl(&b, u, 2, far), Some(vec![far]));
    assert_eq!(appl(&b, u, 3, far), Some(vec![u, near, far]));
    assert_eq!(appl(&b, u, 4, far), Some(vec![near, far]));
    assert_eq!(appl(&b, u, 5, far), None);
    assert_eq!(appl(&b, u, 2, 77), None);
}

#[test]
fn routing_with_no_target() {
    let (b, ids) = linked_world();
    let u = ids[1];
    for s in [0u8, 3, 5] {
        assert_eq!(appl(&b, u, s, NO_TARGET), Some(ids.clone()));
    }
    for s in [1u8, 4, 6] {
        assert_eq!(appl(&b, u, s, NO_TARGET), Some(vec![ids[0], ids[2]]));
    }
    assert_eq!(appl(&b, u, 2, NO_TARGET), Some(vec![ids[0]]));
    assert_eq!(appl(&b, u, 7, NO_TARGET), None);
    assert_eq!(appl(&b, u, 200, NO_TARGET), None);
}

#[test]
fn appl_specific_carries_its_fields() {
    let (b, ids) = linked_world();
    let e = b.appl_specific(ids[0], 3, 42, "go".to_string(), "there".to_string(), -3);
    match &e[0] {
        Effect::Send { msg: Message::ApplSpecific { from, target, strategy, method, strarg, intarg }, .. } => {
            assert_eq!((*from, *target, *strategy, *intarg), (ids[0], 42, 3, -3));
            assert_eq!((method.as_str(), strarg.as_str()), ("go", "there"));
        }
        _ => panic!("expected an application message"),
    }
}

#[test]
fn master_is_lowest_id() {
    let (mut b, ids) = world(3, 10);
    assert_eq!(b.registry.master(), Some(ids[0]));
    b.registry.disconnect(ids[0]).unwrap();
    b.disconnect_flagged();
    b.purge_departed();
    assert_eq!(b.registry.master(), Some(ids[1]));
}

fn chat_text(e: &Effect) -> String {
    match e {
        Effect::Send { msg: Message::ChatSend { text, .. }, .. } => text.clone(),
        Effect::Send { msg: Message::Notice { text }, .. } => text.clone(),
        _ => panic!("not a chat line"),
    }
}

#[test]
fn chat_without_override_is_relayed_verbatim() {
    let (mut b, ids) = world(3, 10);
    b.new_user(ids[1], "bob".to_string(), "dog".to_string());
    for _ in 0..2 {
        let e = b.chat_send(ids[1], "hi all".to_string(), None);
        assert_eq!(e.len(), 1);
        assert_eq!(recipients(&e[0]), vec![ids[0], ids[2]]);
        assert_eq!(chat_text(&e[0]), "bob: hi all");
    }
}

#[test]
fn chat_with_empty_override_is_hidden() {
    let (mut b, ids) = world(2, 10);
    b.new_user(ids[0], "ann".to_string(), "cat".to_string());
    let e = b.chat_send(ids[0], "rude".to_string(), Some(String::new()));
    assert_eq!(e.len(), 1);
    assert_eq!(recipients(&e[0]), vec![ids[0]]);
    assert_eq!(chat_text(&e[0]), "Your message was hidden.");
}

#[test]
fn chat_with_override_is_replaced() {
    let (mut b, ids) = world(2, 10);
    b.new_user(ids[0], "ann".to_string(), "cat".to_string());
    let e = b.chat_send(ids[0], "darn".to_string(), Some("d*rn".to_string()));
    assert_eq!(e.len(), 2);
    assert_eq!(recipients(&e[0]), vec![ids[0]]);
    assert_eq!(chat_text(&e[0]), "Your message was replaced with 'd*rn'");
    assert_eq!(recipients(&e[1]), vec![ids[1]]);
    assert_eq!(chat_text(&e[1]), "ann: d*rn");
}

#[test]
fn chat_from_unknown_session_is_dropped() {
    let (b, _) = world(2, 10);
    assert!(b.chat_send(99, "x".to_string(), None).is_empty());
}

#[test]
fn private_chat_reaches_one_or_none() {
    let (b, ids) = world(3, 10);
    let e = b.private_chat(ids[0], ids[2], "psst".to_string());
    assert_eq!(e.len(), 1);
    assert_eq!(recipients(&e[0]), vec![ids[2]]);
    assert!(b.private_chat(ids[0], 50, "psst".to_string()).is_empty());
}

#[test]
fn new_user_sets_identity_and_counts() {
    let (mut b, ids) = world(2, 10);
    let first = b.new_user(ids[0], "ann".to_string(), "cat".to_string());
    assert_eq!(first.len(), 1);
    match &first[0] {
        Effect::Send { to, msg: Message::UserCount { count } } => {
            assert_eq!((to.clone(), *count), (ids.clone(), 2));
        }
        _ => panic!("expected the user count"),
    }
    let second = b.new_user(ids[1], "bob".to_string(), "dog".to_string());
    assert_eq!(second.len(), 2);
    assert!(matches!(&second[0], Effect::Send { msg: Message::SetMaster { flag: 0 }, .. }));
    assert_eq!(recipients(&second[0]), vec![ids[1]]);
    assert_eq!(b.registry.sessions[1].name, "bob");
    assert_eq!(b.registry.sessions[1].avatar, "dog");
}

#[test]
fn name_and_avatar_changes_go_to_others() {
    let (mut b, ids) = world(3, 10);
    let e = b.name_change(ids[1], "zed".to_string());
    assert_eq!(recipients(&e[0]), vec![ids[0], ids[2]]);
    assert_eq!(b.registry.sessions[1].name, "zed");
    let e = b.avatar_change(ids[1], "owl".to_string());
    assert_eq!(recipients(&e[0]), vec![ids[0], ids[2]]);
    assert_eq!(b.registry.sessions[1].avatar, "owl");
}

#[test]
fn character_update_goes_to_aura() {
    let (mut b, ids) = linked_world();
    let e = b.character_update(ids[0], "hat".to_string());
    assert_eq!(recipients(&e[0]), vec![ids[1]]);
    assert_eq!(b.registry.sessions[0].character_data, "hat");
}

#[test]
fn disconnect_cascades_to_aura() {
    let (mut b, ids) = world(4, 10);
    let (a, bb, c, far) = (ids[0], ids[1], ids[2], ids[3]);
    b.position_update(far, at(1000, 0, 0));
    b.position_update(a, at(1, 0, 0));
    b.position_update(bb, at(0, 0, 0));
    assert!(b.registry.is_in_aura(bb, a) && b.registry.is_in_aura(c, a));

    b.registry.disconnect(a).unwrap();
    let mut e = b.disconnect_flagged();
    // The session is still registered while the hooks run.
    assert!(b.registry.contains(a));
    assert!(b.registry.position(a).is_ok());
    assert!(b.registry.sessions[0].departed);
    e.extend(b.purge_departed());
    assert!(!b.registry.contains(a));
    assert!(!b.registry.is_in_aura(bb, a) && !b.registry.is_in_aura(c, a));
    assert!(b.registry.is_in_aura(bb, c));
    assert_eq!(count_user_left_to(&e, bb, a), 1);
    assert_eq!(count_user_left_to(&e, c, a), 1);
    assert_eq!(count_user_left_to(&e, far, a), 0);
    assert!(e.iter().any(|x| matches!(x, Effect::Removed { id } if *id == a)));
    let counts: Vec<&Effect> = e.iter().filter(|x| matches!(x, Effect::Send { msg: Message::UserCount { .. }, .. })).collect();
    assert_eq!(counts.len(), 1);
    match e.last().unwrap() {
        Effect::Send { to, msg: Message::UserCount { count } } => {
            assert_eq!((to.clone(), *count), (vec![bb, c, far], 3));
        }
        _ => panic!("expected the user count last"),
    }
}

#[test]
fn removing_nothing_sends_nothing() {
    let (mut b, _) = world(2, 10);
    assert!(b.disconnect_flagged().is_empty());
    assert!(b.purge_departed().is_empty());
    assert_eq!(b.registry.len(), 2);
}

#[test]
fn two_disconnects_in_one_tick_count_once() {
    let (mut b, ids) = world(3, 10);
    b.registry.disconnect(ids[0]).unwrap();
    b.registry.disconnect(ids[2]).unwrap();
    let mut e = b.disconnect_flagged();
    assert_eq!(b.registry.len(), 3);
    e.extend(b.purge_departed());
    assert_eq!(b.registry.len(), 1);
    let counts = e.iter().filter(|x| matches!(x, Effect::Send { msg: Message::UserCount { .. }, .. })).count();
    assert_eq!(counts, 1);
    assert_eq!(e.iter().filter(|x| matches!(x, Effect::Removed { .. })).count(), 2);
}

#[test]
fn linked_sessions_leaving_together_cascade_in_order() {
    let (mut b, ids) = world(3, 10);
    for &id in &ids {
        b.position_update(id, at(0, 0, 0));
    }
    assert!(b.registry.is_in_aura(ids[0], ids[1]) && b.registry.is_in_aura(ids[1], ids[2]));
    b.registry.disconnect(ids[0]).unwrap();
    b.registry.disconnect(ids[1]).unwrap();
    let mut e = b.disconnect_flagged();
    assert_eq!(e.len(), 5);
    e.extend(b.purge_departed());
    assert_eq!(e.len(), 6);
    assert_eq!(count_user_left_to(&e[..2], ids[1], ids[0]), 1);
    assert_eq!(count_user_left_to(&e[..2], ids[2], ids[0]), 1);
    assert!(matches!(e[2], Effect::Removed { id } if id == ids[0]));
    assert_eq!(count_user_left_to(&e[3..4], ids[2], ids[1]), 1);
    assert!(matches!(e[4], Effect::Removed { id } if id == ids[1]));
    match &e[5] {
        Effect::Send { to, msg: Message::UserCount { count } } => {
            assert_eq!((to.clone(), *count), (vec![ids[2]], 1));
        }
        _ => panic!("expected the user count last"),
    }
    assert_eq!(b.registry.aura_of(ids[2]), Ok(vec![]));
}

#[test]
fn departed_session_is_skipped_by_aura_and_disconnect() {
    let (mut b, ids) = world(2, 10);
    b.registry.disconnect(ids[0]).unwrap();
    let first = b.disconnect_flagged();
    assert_eq!(first.len(), 1);
    assert!(matches!(first[0], Effect::Removed { id } if id == ids[0]));
    assert!(b.disconnect_user(ids[0]).is_empty());
    let e = b.position_update(ids[1], at(0, 0, 0));
    assert!(!b.registry.is_in_aura(ids[1], ids[0]));
    assert_eq!(count_joined_to(&e, ids[1], ids[0]), 0);
}
