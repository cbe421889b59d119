use show_and_tell::config::Geometry;
use show_and_tell::config::TypeInfo;
use show_and_tell::console::Console;
use show_and_tell::double_channel::channel;
use show_and_tell::messages::Message;
use show_and_tell::messages::Object;
use show_and_tell::parse_port;
use show_and_tell::stats::sort_stats;

#[test]
fn ports_parse_within_the_allowed_range() {
    assert_eq!(parse_port(&String::from("4242")), Ok(4242));
    assert_eq!(parse_port(&String::from("1024")), Ok(1024));
    assert_eq!(parse_port(&String::from("49151")), Ok(49151));
    assert_eq!(parse_port(&String::from("+2048")), Ok(2048));
    assert_eq!(
        parse_port(&String::from("abc")),
        Err(String::from("Invalid port: argument is not a number"))
    );
    assert_eq!(
        parse_port(&String::from("")),
        Err(String::from("Invalid port: argument is not a number"))
    );
    assert_eq!(
        parse_port(&String::from("-1")),
        Err(String::from("Invalid port: argument is not a number"))
    );
    assert_eq!(
        parse_port(&String::from("99999999999999999999")),
        Err(String::from("Invalid port: argument is not a number"))
    );
    assert_eq!(
        parse_port(&String::from("80")),
        Err(String::from("Invalid port, use number from range 1024-49151"))
    );
    assert_eq!(
        parse_port(&String::from("65535")),
        Err(String::from("Invalid port, use number from range 1024-49151"))
    );
}

#[test]
fn channel_halves_are_linked_both_ways() {
    let (a, b) = channel::<u32, String>();
    assert!(b.try_recv().is_err());
    a.send(7).unwrap();
    a.send(8).unwrap();
    b.send(String::from("reply")).unwrap();
    assert_eq!(b.try_recv().unwrap(), 7);
    assert_eq!(b.try_recv().unwrap(), 8);
    assert!(b.try_recv().is_err());
    assert_eq!(a.try_recv().unwrap(), "reply");
}

#[test]
fn console_holds_its_router_link() {
    let (to_router, from_console) = channel::<String, String>();
    let console = Console::new(to_router);
    console.link().send(String::from("list")).unwrap();
    assert_eq!(from_console.try_recv().unwrap(), "list");
    from_console.send(String::from("Running visualizations:")).unwrap();
    assert_eq!(console.link().try_recv().unwrap(), "Running visualizations:");
}

#[test]
fn type_info_takes_known_models_only() {
    let mut info = TypeInfo::new();
    info.set_model("cube");
    info.set_model("pyramid");
    info.set_texture("bricks.png");
    info.add_keys(vec!["up", "down"]);
    let _square = Geometry::Square;
}

#[test]
fn type_info_colors_need_three_byte_components() {
    let mut info = TypeInfo::new();
    info.set_color("255", "128", "0");
    info.set_color("300", "0", "0");
    info.set_color("12", "not", "13");
    info.set_color("+1", "2", "3");
}

#[test]
fn stats_sort_id_and_type_first() {
    let mut object = Object::new();
    object.insert(String::from("b"), String::from("2"));
    object.insert(String::from("type"), String::from("x"));
    object.insert(String::from("a"), String::from("1"));
    object.insert(String::from("id"), String::from("5"));
    let lines = sort_stats(&object);
    assert_eq!(lines.len(), 4);
    assert_eq!(lines[0], "id  : 5");
    assert_eq!(lines[1], "type: x");
    assert_eq!(lines[2], "a   : 1");
    assert_eq!(lines[3], "b   : 2");
}

#[test]
fn stats_lines_pad_to_the_widest_name() {
    let mut object = Object::new();
    object.insert(String::from("speed"), String::from("9"));
    object.insert(String::from("x"), String::from("0"));
    let lines = sort_stats(&object);
    assert_eq!(lines, vec![String::from("speed: 9"), String::from("x    : 0")]);
}

#[test]
fn stats_of_an_empty_object_are_empty() {
    let object = Object::new();
    assert_eq!(sort_stats(&object).len(), 0);
}

#[test]
fn timestamped_message_carries_its_fields() {
    let msg = Message {
        publisher: String::from("p"),
        topic: String::from("t"),
        timestamp: 12345,
        objects: Vec::new(),
    };
    assert_eq!(msg.publisher, "p");
    assert_eq!(msg.topic, "t");
    assert_eq!(msg.timestamp, 12345);
    assert!(msg.objects.is_empty());
}
