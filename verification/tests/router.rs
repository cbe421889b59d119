use show_and_tell::json::encode_message_out;
use show_and_tell::messages::MessageIn;
use show_and_tell::messages::MessageOut;
use show_and_tell::router::Command;
use show_and_tell::router::Delivery;
use show_and_tell::router::Server;
use show_and_tell::router::parse_command;

fn inbound(publisher: &str, id: &str) -> MessageIn {
    MessageIn { publisher: String::from(publisher), id: String::from(id), objects: Vec::new() }
}

fn outbound(publisher: &str, id: &str) -> MessageOut {
    MessageOut {
        publisher: String::from(publisher),
        id: String::from(id),
        object_id: 5,
        key_code: String::from("up"),
    }
}

#[test]
fn close_without_consumer_is_idempotent() {
    let mut server = Server::new(4242);
    let publisher = String::from("p");
    let (first, token1) = server.stop_visualization(&publisher);
    assert_eq!(first, "Visualization p isn't currently running");
    assert!(token1.is_none());
    let (second, token2) = server.stop_visualization(&publisher);
    assert_eq!(second, "Visualization p isn't currently running");
    assert!(token2.is_none());
    assert_eq!(server.print_visualizations(), "Running visualizations:");
}

#[test]
fn second_start_displaces_exactly_one_consumer() {
    let mut server = Server::new(4242);
    let (r1, old1, tok1) = server.start_visualization(String::from("p"), String::from("cfg1"));
    assert_eq!(r1, "New visualization started succesfully");
    assert!(old1.is_none());
    let (r2, old2, tok2) = server.start_visualization(String::from("p"), String::from("cfg2"));
    assert_eq!(
        r2,
        "Warning: closing previous visualization\nNew visualization started succesfully"
    );
    assert_eq!(old2, Some(tok1));
    assert_ne!(tok1, tok2);
    // exactly one record for p remains
    assert_eq!(server.print_visualizations(), "Running visualizations:\np");
    let (_, closed) = server.stop_visualization(&String::from("p"));
    assert_eq!(closed, Some(tok2));
}

#[test]
fn last_writer_wins_between_connections() {
    let mut server = Server::new(4242);
    server.on_connection_accepted(String::from("c1"));
    server.on_connection_accepted(String::from("c2"));
    let msg1 = inbound("p", "m1");
    let msg2 = inbound("p", "m2");
    server.on_inbound(&String::from("c1"), &msg1);
    server.on_inbound(&String::from("c2"), &msg2);
    let route = server.on_outbound(&outbound("p", "m2"));
    match route.delivery {
        Delivery::Forward(conn) => assert_eq!(conn, "c2"),
        _ => panic!("expected delivery to the most recent connection"),
    }
}

#[test]
fn orphaned_publisher_entry_is_pruned_on_miss() {
    let mut server = Server::new(4242);
    server.on_connection_accepted(String::from("c1"));
    server.on_inbound(&String::from("c1"), &inbound("p", "m1"));
    server.on_connection_closed(&String::from("c1"));
    // first miss drops the message and prunes the stale entry
    let route = server.on_outbound(&outbound("p", "m1"));
    assert!(matches!(route.delivery, Delivery::Orphaned));
    // the entry is gone: the publisher is now unknown
    let route = server.on_outbound(&outbound("p", "m1"));
    assert!(matches!(route.delivery, Delivery::Unknown));
}

#[test]
fn inbound_goes_to_consumer_only_when_one_runs() {
    let mut server = Server::new(4242);
    server.on_connection_accepted(String::from("c1"));
    let idle = server.on_inbound(&String::from("c1"), &inbound("p", "m1"));
    assert!(idle.forward_to.is_none());
    assert!(idle.log_record.is_none());
    let (_, _, token) = server.start_visualization(String::from("p"), String::from("cfg"));
    let routed = server.on_inbound(&String::from("c1"), &inbound("p", "m2"));
    assert_eq!(routed.forward_to, Some(token));
    assert!(routed.log_record.is_none());
}

#[test]
fn end_to_end_reply_reaches_the_original_connection() {
    // client connects and sends one message
    let mut server = Server::new(4242);
    let connection = String::from("127.0.0.1:5001");
    server.on_connection_accepted(connection.clone());
    let frame = br#"{"publisher":"p1","id":"m1","objects":[{"id":"5","x":"1"}]}"#;
    let mut parser = show_and_tell::framer::MessageParser::new();
    parser.push(frame);
    let msg = parser.pop().expect("the frame decodes");

    // operator starts a consumer for p1
    let outcome = server.apply_command(
        &parse_command("start p1 cfg.txt"),
        false,
    );
    let token = outcome.spawn_consumer.expect("a consumer is spawned");

    // the message is routed to that consumer
    let route = server.on_inbound(&connection, &msg);
    assert_eq!(route.forward_to, Some(token));
    assert_eq!(msg.id, "m1");

    // the consumer answers; the reply reaches the original connection
    let reply = MessageOut {
        publisher: String::from("p1"),
        id: msg.id.clone(),
        object_id: 5,
        key_code: String::from("up"),
    };
    let route = server.on_outbound(&reply);
    match route.delivery {
        Delivery::Forward(conn) => assert_eq!(conn, connection),
        _ => panic!("expected delivery to the original connection"),
    }
    assert_eq!(
        String::from_utf8(encode_message_out(&reply)).unwrap(),
        r#"{"publisher":"p1","id":"m1","objectId":5,"keyCode":"up"}"#
    );
}

#[test]
fn list_names_every_running_consumer() {
    let mut server = Server::new(4242);
    server.start_visualization(String::from("p1"), String::from("a"));
    server.start_visualization(String::from("p2"), String::from("b"));
    let response = server.print_visualizations();
    assert_eq!(response, "Running visualizations:\np1\np2");
    assert!(response.contains("p1"));
    assert!(response.contains("p2"));
}

#[test]
fn traffic_log_records_each_routed_message_once() {
    let mut server = Server::new(4242);
    server.on_connection_accepted(String::from("c1"));
    server.start_visualization(String::from("p1"), String::from("cfg"));

    let opened = server.launch_traffic_log(String::from("out.txt"), true);
    assert_eq!(opened, "Saving logs to out.txt");

    let mut log: Vec<Vec<u8>> = Vec::new();
    let msg = inbound("p1", "m1");
    let route = server.on_inbound(&String::from("c1"), &msg);
    if let Some(record) = route.log_record {
        log.push(record);
    }
    let reply = outbound("p1", "m1");
    let route = server.on_outbound(&reply);
    if let Some(record) = route.log_record {
        log.push(record);
    }

    let closed = server.stop_traffic_log();
    assert_eq!(closed, "Logs saved to out.txt");

    // exactly one record for the inbound message, one for the reply,
    // each a debug-formatted line
    assert_eq!(log.len(), 2);
    assert_eq!(
        String::from_utf8(log[0].clone()).unwrap(),
        r#"MessageIn { publisher: "p1", id: "m1", objects: [] }"#
    );
    assert_eq!(
        String::from_utf8(log[1].clone()).unwrap(),
        r#"MessageOut { publisher: "p1", id: "m1", object_id: 5, key_code: "up" }"#
    );

    // with the log closed nothing is recorded
    let route = server.on_inbound(&String::from("c1"), &inbound("p1", "m2"));
    assert!(route.log_record.is_none());
}

#[test]
fn consumer_stopping_by_itself_notifies_the_console() {
    let mut server = Server::new(4242);
    let (_, _, token) = server.start_visualization(String::from("p"), String::from("cfg"));
    let (notice, removed) = server.on_consumer_stopped(&String::from("p"));
    assert_eq!(notice, "Visualization p has been stopped");
    assert_eq!(removed, Some(token));
    assert_eq!(server.print_visualizations(), "Running visualizations:");
}

#[test]
fn commands_follow_the_documented_grammar() {
    assert!(matches!(parse_command("list"), Command::List));
    assert!(matches!(parse_command("  list  "), Command::List));
    assert!(matches!(parse_command("start p cfg"), Command::Start(_, _)));
    assert!(matches!(parse_command("close p"), Command::Close(_)));
    assert!(matches!(parse_command("log start out.txt"), Command::LogStart(_)));
    assert!(matches!(parse_command("log stop"), Command::LogStop));
    assert!(matches!(parse_command("quit"), Command::Quit));
    assert!(matches!(parse_command("exit"), Command::Quit));
    // wrong arity collapses to an unknown command
    assert!(matches!(parse_command("list extra"), Command::Unknown(_)));
    assert!(matches!(parse_command("start p"), Command::Unknown(_)));
    assert!(matches!(parse_command("nonsense"), Command::Unknown(_)));
    assert!(matches!(parse_command(""), Command::Unknown(_)));
    // a malformed log line is reported in its own words
    assert!(matches!(parse_command("log sideways"), Command::LogInvalid(_)));
}

#[test]
fn command_responses_match_the_console_contract() {
    let mut server = Server::new(4242);
    let unknown = server.apply_command(&parse_command("frobnicate now"), false);
    assert_eq!(unknown.response, "Unknown command: \"frobnicate\"");
    assert!(!unknown.quit);

    let empty = server.apply_command(&parse_command(""), false);
    assert_eq!(empty.response, "Unknown command: \"\"");

    let invalid = server.apply_command(&parse_command("log  sideways   now"), false);
    assert_eq!(invalid.response, "Invalid command: \"log sideways now\"");

    let failed_log = server.apply_command(&parse_command("log start nope.txt"), false);
    assert_eq!(failed_log.response, "Failed to open nope.txt");

    let no_log = server.apply_command(&parse_command("log stop"), false);
    assert_eq!(no_log.response, "No logger running");

    let quit = server.apply_command(&parse_command("quit"), false);
    assert_eq!(quit.response, "Shutting down");
    assert!(quit.quit);
}
