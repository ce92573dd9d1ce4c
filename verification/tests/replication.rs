//! The linking context, the registry, and the replication manager's
//! snapshot and diff behaviour across cycles.

use replication::linking_context::{
    read_game_object_ref, read_opt_game_object_ref, write_game_object_ref,
    write_opt_game_object_ref, LinkingContext,
};
use replication::network::{
    ObjectRegistry, PacketType, ReplicationAction, ReplicationHeader, ReplicationManager,
};
use replication::object::{GameObject, NetObject, RoboCat};
use replication::reflect::{FieldValue, MemberField, Ty, UserDefinedType};
use replication::stream::{GameIoError, InputMemoryStream, OutputMemoryStream};

fn cat_layout() -> UserDefinedType {
    UserDefinedType::new(vec![
        MemberField::new("health".to_owned(), Ty::Int),
        MemberField::new("meow_count".to_owned(), Ty::Int),
        MemberField::new("name".to_owned(), Ty::Text),
    ])
}

fn cat_defaults() -> Vec<FieldValue> {
    vec![
        FieldValue::Int(10),
        FieldValue::Int(3),
        FieldValue::Text(String::new()),
    ]
}

fn cat_object(identity: usize, health: u32, meows: u32, name: &str) -> NetObject {
    NetObject::new(
        identity,
        1,
        vec![
            FieldValue::Int(health),
            FieldValue::Int(meows),
            FieldValue::Text(name.to_owned()),
        ],
    )
}

fn cat_registry() -> ObjectRegistry {
    let mut registry = ObjectRegistry::new();
    registry.register(1, cat_layout(), cat_defaults());
    registry
}

#[test]
fn identity_stability() {
    let mut ctx = LinkingContext::new();
    let cat = cat_object(900, 10, 3, "Mimi");
    let first = ctx.get_network_id(&cat, true).unwrap();
    let second = ctx.get_network_id(&cat, true).unwrap();
    let third = ctx.get_network_id(&cat, false).unwrap();
    assert_eq!(first, second);
    assert_eq!(first, third);
    let stranger = cat_object(901, 10, 3, "Momo");
    assert!(ctx.get_network_id(&stranger, false).is_none());
}

#[test]
fn linking_context_both_directions() {
    let mut ctx = LinkingContext::new();
    let cat = cat_object(42, 9, 1, "Taco");
    let id = ctx.get_network_id(&cat, true).unwrap();
    let stored = ctx.get_game_object(id).unwrap();
    assert_eq!(stored.id, 42);
    assert_eq!(stored.class_id, 1);
    ctx.remove_game_object(&cat);
    assert!(ctx.get_game_object(id).is_none());
    assert!(ctx.get_network_id(&cat, false).is_none());
}

#[test]
fn registry_manufactures_defaults() {
    let mut registry = cat_registry();
    let first = registry.create_game_object(1).unwrap();
    let second = registry.create_game_object(1).unwrap();
    assert_ne!(first.id, second.id);
    assert_eq!(first.class_id, 1);
    assert_eq!(first.fields.len(), 3);
    assert!(registry.create_game_object(77).is_none());
}

fn send_snapshot(ctx: &mut LinkingContext, objects: &Vec<NetObject>) -> Vec<u8> {
    let manager = ReplicationManager::new();
    let mut out = OutputMemoryStream::new();
    manager.replicate_world_state(&mut out, ctx, objects).unwrap();
    out.buffer().clone()
}

fn receive_snapshot(
    manager: &mut ReplicationManager,
    ctx: &mut LinkingContext,
    registry: &mut ObjectRegistry,
    bytes: Vec<u8>,
) {
    let mut inp = InputMemoryStream::new(bytes);
    let tag = inp.read_u8().unwrap();
    assert_eq!(tag, PacketType::ReplicationData.tag());
    manager.recv_replicated_objects(&mut inp, ctx, registry).unwrap();
}

#[test]
fn replication_diff_cycles() {
    // Sender side: three cats, identifiers minted up front.
    let mut send_ctx = LinkingContext::new();
    let a = cat_object(100, 12, 1, "Alpha");
    let b = cat_object(101, 8, 2, "Beta");
    let c = cat_object(102, 5, 7, "Gamma");
    let id_a = send_ctx.get_network_id(&a, true).unwrap();
    let id_b = send_ctx.get_network_id(&b, true).unwrap();

    // Receiver side.
    let mut manager = ReplicationManager::new();
    let mut recv_ctx = LinkingContext::new();
    let mut registry = cat_registry();

    // Cycle 1: {A, B} arrive; both become known.
    let bytes = send_snapshot(&mut send_ctx, &vec![a.duplicate(), b.duplicate()]);
    receive_snapshot(&mut manager, &mut recv_ctx, &mut registry, bytes);
    assert!(recv_ctx.get_game_object(id_a).is_some());
    assert!(recv_ctx.get_game_object(id_b).is_some());

    // Cycle 2: only {A}; B vanishes, A survives.
    let bytes = send_snapshot(&mut send_ctx, &vec![a.duplicate()]);
    receive_snapshot(&mut manager, &mut recv_ctx, &mut registry, bytes);
    assert!(recv_ctx.get_game_object(id_a).is_some());
    assert!(recv_ctx.get_game_object(id_b).is_none());

    // Cycle 3: {A, C} with C unseen; C is built through the registry and
    // registered under the identifier the wire carried.
    let id_c = send_ctx.get_network_id(&c, true).unwrap();
    let bytes = send_snapshot(&mut send_ctx, &vec![a.duplicate(), c.duplicate()]);
    receive_snapshot(&mut manager, &mut recv_ctx, &mut registry, bytes);
    let got_c = recv_ctx.get_game_object(id_c).unwrap();
    assert_eq!(got_c.class_id, 1);
    match &got_c.fields[2] {
        FieldValue::Text(name) => assert_eq!(name, "Gamma"),
        other => panic!("wrong field kind: {:?}", other),
    }
    assert!(recv_ctx.get_game_object(id_a).is_some());
}

#[test]
fn snapshot_updates_known_objects() {
    let mut send_ctx = LinkingContext::new();
    let before = cat_object(300, 10, 0, "Pip");
    let id = send_ctx.get_network_id(&before, true).unwrap();

    let mut manager = ReplicationManager::new();
    let mut recv_ctx = LinkingContext::new();
    let mut registry = cat_registry();

    let bytes = send_snapshot(&mut send_ctx, &vec![before.duplicate()]);
    receive_snapshot(&mut manager, &mut recv_ctx, &mut registry, bytes);

    let after = cat_object(300, 4, 9, "Pip");
    let bytes = send_snapshot(&mut send_ctx, &vec![after.duplicate()]);
    receive_snapshot(&mut manager, &mut recv_ctx, &mut registry, bytes);

    let stored = recv_ctx.get_game_object(id).unwrap();
    match (&stored.fields[0], &stored.fields[1]) {
        (FieldValue::Int(health), FieldValue::Int(meows)) => {
            assert_eq!(*health, 4);
            assert_eq!(*meows, 9);
        }
        other => panic!("wrong field kinds: {:?}", other),
    }
}

#[test]
fn explicit_action_headers_roundtrip() {
    let mut ctx = LinkingContext::new();
    let cat = cat_object(500, 3, 3, "Rex");
    let id = ctx.get_network_id(&cat, true).unwrap();

    let mut manager = ReplicationManager::new();
    let mut out = OutputMemoryStream::new();
    manager.replicate_create(&mut out, &mut ctx, &cat).unwrap();
    manager.replicate_update(&mut out, &mut ctx, &cat).unwrap();
    manager.replicate_destroy(&mut out, &mut ctx, &cat).unwrap();

    let mut inp = InputMemoryStream::new(out.buffer().clone());
    let h1 = manager.process_replication_action(&mut inp, &mut ctx).unwrap();
    assert_eq!(h1.action, ReplicationAction::Create);
    assert_eq!(h1.network_id, id);
    assert_eq!(h1.class_id, 1);
    let h2 = manager.process_replication_action(&mut inp, &mut ctx).unwrap();
    assert_eq!(h2.action, ReplicationAction::Update);
    assert!(ctx.get_game_object(id).is_some());
    let h3 = manager.process_replication_action(&mut inp, &mut ctx).unwrap();
    assert_eq!(h3.action, ReplicationAction::Destroy);
    // The decoded destroy header drove removal.
    assert!(ctx.get_game_object(id).is_none());
}

#[test]
fn invalid_action_tag_is_rejected() {
    let mut out = OutputMemoryStream::new();
    out.write_u8(9).unwrap();
    out.write_usize(0).unwrap();
    out.write_u32(1).unwrap();
    let mut inp = InputMemoryStream::new(out.buffer().clone());
    match ReplicationHeader::read_byte(&mut inp) {
        Err(GameIoError::InvalidAction(9)) => {}
        other => panic!("expected an invalid action, got {:?}", other),
    }
}

#[test]
fn unknown_class_id_aborts_receive() {
    let mut send_ctx = LinkingContext::new();
    let ghost_cat = NetObject::new(700, 99, vec![FieldValue::Int(1)]);
    send_ctx.get_network_id(&ghost_cat, true).unwrap();

    let mut manager = ReplicationManager::new();
    let mut recv_ctx = LinkingContext::new();
    let mut registry = cat_registry();

    let mut out = OutputMemoryStream::new();
    let sender = ReplicationManager::new();
    sender
        .replicate_world_state(&mut out, &mut send_ctx, &vec![ghost_cat])
        .unwrap();
    let mut inp = InputMemoryStream::new(out.buffer().clone());
    inp.read_u8().unwrap();
    match manager.recv_replicated_objects(&mut inp, &mut recv_ctx, &mut registry) {
        Err(GameIoError::UnknownClassId(99)) => {}
        other => panic!("expected an unknown class, got {:?}", other),
    }
}

#[test]
fn truncated_snapshot_aborts_receive() {
    let mut send_ctx = LinkingContext::new();
    let cat = cat_object(800, 2, 2, "Ash");
    send_ctx.get_network_id(&cat, true).unwrap();

    let mut manager = ReplicationManager::new();
    let mut recv_ctx = LinkingContext::new();
    let mut registry = cat_registry();

    let bytes = send_snapshot(&mut send_ctx, &vec![cat]);
    let cut = bytes.len() - 3;
    let mut inp = InputMemoryStream::new(bytes[..cut].to_vec());
    inp.read_u8().unwrap();
    match manager.recv_replicated_objects(&mut inp, &mut recv_ctx, &mut registry) {
        Err(GameIoError::UnexpectedEof(_, _)) => {}
        other => panic!("expected end of stream, got {:?}", other),
    }
}

#[test]
fn object_reference_roundtrip() {
    let mut ctx = LinkingContext::new();
    let cat = cat_object(600, 1, 1, "Ref");
    let id = ctx.get_network_id(&cat, true).unwrap();
    let mut out = OutputMemoryStream::new();
    write_game_object_ref(&mut out, &mut ctx, &cat).unwrap();
    let mut inp = InputMemoryStream::new(out.buffer().clone());
    let resolved = read_game_object_ref(&mut inp, &ctx).unwrap();
    assert_eq!(resolved.id, 600);
    assert_eq!(ctx.get_network_id(&cat, false).unwrap(), id);
}

#[test]
fn optional_reference_roundtrip() {
    let mut ctx = LinkingContext::new();
    let cat = cat_object(602, 1, 1, "Opt");
    ctx.get_network_id(&cat, true).unwrap();
    let mut out = OutputMemoryStream::new();
    write_opt_game_object_ref(&mut out, &mut ctx, Some(&cat)).unwrap();
    write_opt_game_object_ref(&mut out, &mut ctx, None).unwrap();
    let mut inp = InputMemoryStream::new(out.buffer().clone());
    let first = read_opt_game_object_ref(&mut inp, &ctx).unwrap();
    assert_eq!(first.unwrap().id, 602);
    let second = read_opt_game_object_ref(&mut inp, &ctx).unwrap();
    assert!(second.is_none());
}

#[test]
fn unregistered_reference_carries_its_id() {
    let mut ctx = LinkingContext::new();
    let stranger = cat_object(601, 1, 1, "Ghost");
    let mut out = OutputMemoryStream::new();
    match write_game_object_ref(&mut out, &mut ctx, &stranger) {
        Err(GameIoError::UnregisteredGameObject(0)) => {}
        other => panic!("expected an unregistered refusal, got {:?}", other),
    }
    // A wire identifier nobody registered resolves to the explicit
    // unregistered error carrying that identifier, never a silent default.
    let mut out = OutputMemoryStream::new();
    out.write_usize(31).unwrap();
    let mut inp = InputMemoryStream::new(out.buffer().clone());
    match read_game_object_ref(&mut inp, &ctx) {
        Err(GameIoError::UnregisteredGameObject(31)) => {}
        other => panic!("expected an unregistered reference, got {:?}", other),
    }
}

#[test]
fn robocat_reflected_roundtrip() {
    let mut cat = RoboCat::default();
    cat.id = 11;
    cat.name = "Eminem".to_owned();
    assert_eq!(cat.id(), 11);
    assert_eq!(cat.class_id(), 1);
    let net = cat.to_net_object();
    let mut out = OutputMemoryStream::new();
    out.write_field_values(&net.fields).unwrap();
    let mut inp = InputMemoryStream::new(out.buffer().clone());
    let fields = inp.read_reflected(&cat_layout()).unwrap();
    let rebuilt = RoboCat::from_net_object(&NetObject::new(11, 1, fields));
    assert_eq!(rebuilt.health, 10);
    assert_eq!(rebuilt.meow_count, 3);
    assert_eq!(rebuilt.name, "Eminem");
    assert_eq!(rebuilt.id, 11);
}
