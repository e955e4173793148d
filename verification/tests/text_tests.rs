use fast_book::comm::text::{
    parse_command, parse_view_request, put_decimal, render_view, Command, CommandError,
};
use fast_book::comm::urcp::{
    AddRequest, CancelRequest, FlushRequest, LevelViewRequest, OBRequest, ReduceRequest,
    StartRequest,
};

fn send(req: OBRequest) -> Result<Command, CommandError> {
    Ok(Command::Send(req))
}

#[test]
fn commands_of_the_console() {
    assert_eq!(parse_command(b"A 5 -50 1\n"), send(OBRequest::Add(AddRequest::new(5, -50, 1))));
    assert_eq!(
        parse_command(b"  Add\t18446744073709551615  +127\r\n 65535 extra"),
        send(OBRequest::Add(AddRequest::new(u64::MAX, 127, 65535)))
    );
    assert_eq!(parse_command(b"A 0 -128 0"), send(OBRequest::Add(AddRequest::new(0, -128, 0))));
    assert_eq!(parse_command(b"A 007 -0 00"), send(OBRequest::Add(AddRequest::new(7, 0, 0))));
    assert_eq!(parse_command(b"C 12 1"), send(OBRequest::Cancel(CancelRequest::new(12, 1))));
    assert_eq!(parse_command(b"R 12 3 0"), send(OBRequest::Reduce(ReduceRequest::new(12, 3, 0))));
    assert_eq!(parse_command(b"F 1"), send(OBRequest::Flush(FlushRequest::new(1))));
    assert_eq!(parse_command(b"S 1"), send(OBRequest::Start(StartRequest::new(1))));
    assert_eq!(parse_command(b"V 0"), send(OBRequest::LevelView(LevelViewRequest::new(0))));
    assert_eq!(parse_command(b"Q"), Ok(Command::Quit));
    assert_eq!(parse_command(b"x 1 2 3"), Ok(Command::Quit));
    assert_eq!(parse_command(b"a 1 2 3"), Ok(Command::Quit));
}

#[test]
fn lines_that_are_no_command() {
    assert_eq!(parse_command(b""), Err(CommandError::Empty));
    assert_eq!(parse_command(b" \t\r\n"), Err(CommandError::Empty));
    assert_eq!(parse_command(b"A 5 -50"), Err(CommandError::MissingArgument));
    assert_eq!(parse_command(b"C 5"), Err(CommandError::MissingArgument));
    assert_eq!(parse_command(b"R"), Err(CommandError::MissingArgument));
    assert_eq!(parse_command(b"F   "), Err(CommandError::MissingArgument));
    assert_eq!(parse_command(b"A -5 50 1"), Err(CommandError::BadNumber));
    assert_eq!(parse_command(b"A 5 128 1"), Err(CommandError::BadNumber));
    assert_eq!(parse_command(b"A 5 -129 1"), Err(CommandError::BadNumber));
    assert_eq!(parse_command(b"A 5 50 65536"), Err(CommandError::BadNumber));
    assert_eq!(parse_command(b"A 18446744073709551616 50 1"), Err(CommandError::BadNumber));
    assert_eq!(parse_command(b"A 99999999999999999999999 50 1"), Err(CommandError::BadNumber));
    assert_eq!(parse_command(b"A 5 5x 1"), Err(CommandError::BadNumber));
    assert_eq!(parse_command(b"A 5 - 1"), Err(CommandError::BadNumber));
    assert_eq!(parse_command(b"A + 5 1"), Err(CommandError::BadNumber));
    assert_eq!(parse_command(b"A 5 +-5 1"), Err(CommandError::BadNumber));
    assert_eq!(parse_command(b"S 1.0"), Err(CommandError::BadNumber));
}

#[test]
fn numbers_in_decimal() {
    for (value, text) in [
        (0u64, "0"),
        (7, "7"),
        (10, "10"),
        (109, "109"),
        (1_000_000, "1000000"),
        (u64::MAX, "18446744073709551615"),
    ] {
        let mut out = vec![b'>'];
        put_decimal(&mut out, value);
        assert_eq!(out, format!(">{}", text).into_bytes());
        assert_eq!(text.parse::<u64>(), Ok(value));
    }
}

#[test]
fn level_view_as_text() {
    let mut prices = [0u64; 256];
    prices[0] = 12;
    prices[1] = u64::MAX;
    prices[255] = 340;
    let text = String::from_utf8(render_view(&prices)).unwrap();
    let expected: Vec<String> = prices.iter().map(|p| p.to_string()).collect();
    assert_eq!(text, expected.join(","));
    assert!(text.starts_with("12,18446744073709551615,0,0,"));
    assert!(text.ends_with(",0,340"));
    let back: Vec<u64> = text.split(',').map(|w| w.parse().unwrap()).collect();
    assert_eq!(back, prices.to_vec());
}

#[test]
fn view_requests() {
    assert_eq!(parse_view_request(b"V 1"), Some(1));
    assert_eq!(parse_view_request(b"V 65535 and more"), Some(65535));
    assert_eq!(parse_view_request(b"V +7"), Some(7));
    assert_eq!(parse_view_request(b"V 65536"), None);
    assert_eq!(parse_view_request(b"V"), None);
    assert_eq!(parse_view_request(b"V "), None);
    assert_eq!(parse_view_request(b"V  1"), None);
    assert_eq!(parse_view_request(b"VV 1"), None);
    assert_eq!(parse_view_request(b"X 1"), None);
    assert_eq!(parse_view_request(b" V 1"), None);
    assert_eq!(parse_view_request(b""), None);
    assert_eq!(parse_view_request(b"V -1"), None);
}
