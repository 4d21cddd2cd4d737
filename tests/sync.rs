use merkle_trie_clock::error::Error;
use merkle_trie_clock::models::{Message, RowParam, ValueType};
use merkle_trie_clock::records::{Todo, TASK_TABLE};
use merkle_trie_clock::server::Server;
use merkle_trie_clock::syncer::{decide_round, SyncStep, Syncer};

const GROUP: &str = "todo-app";

fn run_sync(client: &mut Syncer<Todo, 3>, server: &mut Server<3>, initial: Vec<Message>) -> usize {
    let mut since: Option<i64> = None;
    let mut pending = initial;
    let mut rounds = 0;
    loop {
        rounds += 1;
        let request = client.sync_request(pending, since).unwrap();
        let node = client.node_name().to_string();
        let answer = server.handle_sync(GROUP, &node, &request, client.clock().merkle());
        let merkle = server.merkle(GROUP).unwrap();
        match client.finish_sync(since, answer, merkle).unwrap() {
            SyncStep::Done => return rounds,
            SyncStep::Again(d) => {
                since = Some(d);
                pending = vec![];
            }
        }
        assert!(rounds < 20);
    }
}

#[test]
fn sync_round_trip_between_two_clients() {
    let mut server: Server<3> = Server::new();
    let mut first: Syncer<Todo, 3> = Syncer::new("0123456789abcdef".to_string()).unwrap();
    let (id, messages) = first
        .insert(
            TASK_TABLE,
            vec![
                RowParam { id: None, column: "content".to_string(), value_type: ValueType::String, value: "buy".to_string() },
                RowParam { id: None, column: "todo_type".to_string(), value_type: ValueType::String, value: "food".to_string() },
            ],
        )
        .unwrap();
    assert_eq!(messages.len(), 2);
    assert_ne!(messages[0].timestamp, messages[1].timestamp);
    assert_eq!(id.len(), 36);
    assert!(messages.iter().all(|m| m.row == id));

    run_sync(&mut first, &mut server, messages);
    let log = server.messages(GROUP).unwrap();
    assert_eq!(log.len(), 2);
    assert_eq!(server.merkle(GROUP).unwrap().root_hash(), first.clock().merkle().root_hash());

    let mut second: Syncer<Todo, 3> = Syncer::new("fedcba9876543210".to_string()).unwrap();
    run_sync(&mut second, &mut server, vec![]);
    assert_eq!(second.clock().merkle().root_hash(), first.clock().merkle().root_hash());
    assert_eq!(second.clock().merkle().length(), 2);
    let todo = second.storage().item(&id).unwrap();
    assert_eq!(todo.content, "buy");
    assert_eq!(todo.todo_type, "food");
    assert_eq!(todo.tombstone, 0);
}

#[test]
fn update_and_delete_reach_the_other_client() {
    let mut server: Server<3> = Server::new();
    let mut first: Syncer<Todo, 3> = Syncer::new("0123456789abcdef".to_string()).unwrap();
    let (id, messages) = first
        .insert(TASK_TABLE, vec![RowParam { id: None, column: "content".to_string(), value_type: ValueType::String, value: "buy".to_string() }])
        .unwrap();
    run_sync(&mut first, &mut server, messages);
    let updates = first
        .update(
            TASK_TABLE,
            vec![
                RowParam { id: Some(id.clone()), column: "content".to_string(), value_type: ValueType::String, value: "sell".to_string() },
                RowParam { id: None, column: "todo_type".to_string(), value_type: ValueType::String, value: "ignored".to_string() },
            ],
        )
        .unwrap();
    assert_eq!(updates.len(), 1);
    run_sync(&mut first, &mut server, updates);
    let deletes = first.delete(TASK_TABLE, &id).unwrap();
    assert_eq!(deletes[0].column, "tombstone");
    assert_eq!(deletes[0].value, "1");
    run_sync(&mut first, &mut server, deletes);

    let mut second: Syncer<Todo, 3> = Syncer::new("fedcba9876543210".to_string()).unwrap();
    run_sync(&mut second, &mut server, vec![]);
    let todo = second.storage().item(&id).unwrap();
    assert_eq!(todo.content, "sell");
    assert_eq!(todo.todo_type, "");
    assert_eq!(todo.tombstone, 1);
    assert_eq!(second.clock().merkle().root_hash(), first.clock().merkle().root_hash());
}

#[test]
fn server_ignores_repeated_timestamps() {
    let mut server: Server<3> = Server::new();
    let mut client: Syncer<Todo, 3> = Syncer::new("0123456789abcdef".to_string()).unwrap();
    let (_, messages) = client
        .insert(TASK_TABLE, vec![RowParam { id: None, column: "content".to_string(), value_type: ValueType::String, value: "buy".to_string() }])
        .unwrap();
    let again: Vec<Message> = messages.iter().map(|m| m.copy()).collect();
    server.add_messages(GROUP, &messages);
    server.add_messages(GROUP, &again);
    assert_eq!(server.messages(GROUP).unwrap().len(), 1);
    assert_eq!(server.merkle(GROUP).unwrap().length(), 1);
}

#[test]
fn disabled_sync_sends_nothing() {
    let mut client: Syncer<Todo, 3> = Syncer::new("0123456789abcdef".to_string()).unwrap();
    client.set_sync_enabled(false);
    assert!(client.sync_request(vec![], None).is_none());
}

#[test]
fn sync_request_drops_messages_before_since() {
    let client: Syncer<Todo, 3> = Syncer::new("0123456789abcdef".to_string()).unwrap();
    let early = Message {
        timestamp: "2024-04-12T05:13:20.831+00:00-0000-5ef35ca3375b14c8".to_string(),
        dataset: TASK_TABLE.to_string(),
        row: "r".to_string(),
        column: "content".to_string(),
        value_type: ValueType::String,
        value: "a".to_string(),
    };
    let late = Message { timestamp: "2024-04-12T05:13:21.000+00:00-0000-5ef35ca3375b14c8".to_string(), ..early.copy() };
    let kept = client.sync_request(vec![early, late], Some(1712898800900)).unwrap();
    assert_eq!(kept.len(), 1);
    assert_eq!(kept[0].timestamp, "2024-04-12T05:13:21.000+00:00-0000-5ef35ca3375b14c8");
}

#[test]
fn node_ids_are_sixteen_characters_without_dashes() {
    assert_eq!(Syncer::<Todo, 3>::new("CLIENT".to_string()).err(), Some(Error::InvalidNode));
    assert_eq!(Syncer::<Todo, 3>::new("0123456789-bcdef".to_string()).err(), Some(Error::InvalidNode));
    assert!(Syncer::<Todo, 3>::new("CLIENT0000000000".to_string()).is_ok());
}

#[test]
fn receiving_nothing_changes_nothing() {
    let mut client: Syncer<Todo, 3> = Syncer::new("0123456789abcdef".to_string()).unwrap();
    client.receive_messages(vec![]).unwrap();
    assert!(client.clock().merkle().is_empty());
    assert_eq!(client.clock().timer().millis(), 0);
}

#[test]
fn round_decisions() {
    assert_eq!(decide_round(None, None), Ok(SyncStep::Done));
    assert_eq!(decide_round(None, Some(0)), Ok(SyncStep::Done));
    assert_eq!(decide_round(Some(5), Some(-3)), Ok(SyncStep::Done));
    assert_eq!(decide_round(None, Some(42)), Ok(SyncStep::Again(42)));
    assert_eq!(decide_round(Some(41), Some(42)), Ok(SyncStep::Again(42)));
    assert_eq!(decide_round(Some(42), Some(42)), Err(Error::SyncStuck));
}
