use cutlist::model::{Board, Cut, Input, ParseError, RESOLUTION};

fn steps(x: f32) -> u32 {
    (x * RESOLUTION as f32).floor() as u32
}

#[test]
fn board_parse_accepts_valid_input() {
    assert_eq!(
        Board::parse("96.5x5.5:A").expect("Expected format to parse"),
        Board { length: steps(96.5), width: steps(5.5), id: "A".into() }
    );
    assert_eq!(
        Board::parse("96x5:Foo").expect("Expected format to parse"),
        Board { length: steps(96f32), width: steps(5f32), id: "Foo".into() }
    );
}

#[test]
fn board_parse_rejects_invalid_input() {
    // Board must have an id
    assert!(Board::parse("3x5").is_err());
    assert!(Board::parse("5x5:").is_err());

    // Board dimensions must be > 0
    assert!(Board::parse("-3x5.5:A").is_err());
    assert!(Board::parse("0x5.5:A").is_err());
    assert!(Board::parse("0.0x5.5:A").is_err());
    assert!(Board::parse("10x0:A").is_err());
    assert!(Board::parse("10x0.0:A").is_err());
    assert!(Board::parse("10x-0.01:A").is_err());
    assert!(Board::parse("10x-1:A").is_err());

    // Reject bad strings
    assert!(Board::parse("This x is not a format x string").is_err());
    assert!(Board::parse("This is not a format string").is_err());
    assert!(Board::parse("axb").is_err());
    assert!(Board::parse("38907rtu4obyio4ycbnq7890237890-7cb0  f").is_err());
}

#[test]
fn cut_parse_acceps_valid_input() {
    assert_eq!(
        Cut::parse("2@12x4:Apron").expect("Expected format to parse"),
        Cut { length: steps(12f32), width: steps(4f32), count: 2, name: "Apron".to_owned() }
    );

    assert_eq!(
        Cut::parse("22@12.5x4.8:This has multiple words").expect("Expected format to parse"),
        Cut {
            length: steps(12.5f32),
            width: steps(4.8f32),
            count: 22,
            name: "This has multiple words".to_owned()
        }
    );
}

#[test]
fn cut_parse_rejects_bad_input() {
    // count must be integer >= 1
    assert!(Cut::parse("1.2@44x8:Apron").is_err());
    assert!(Cut::parse("0@44x8:Apron").is_err());
    assert!(Cut::parse("-4@44x8:Apron").is_err());

    // Length must be > 0
    assert!(Cut::parse("1@0x8:Apron").is_err());
    assert!(Cut::parse("1@-1x8:Apron").is_err());

    // Width must be > 0
    assert!(Cut::parse("1@10x0:Apron").is_err());
    assert!(Cut::parse("1@10x-1:Apron").is_err());

    // We expect a name
    assert!(Cut::parse("1@10x4").is_err());

    // Reject garbage
    assert!(Cut::parse("This is not a cut format string").is_err());
    assert!(Cut::parse("1.2.3.4").is_err());
}

#[test]
fn board_parse_reports_each_error() {
    assert_eq!(Board::parse("3x5"), Err(ParseError::InvalidFormat));
    assert_eq!(Board::parse("35:A"), Err(ParseError::InvalidFormat));
    assert_eq!(Board::parse("axb:A"), Err(ParseError::InvalidNumber));
    assert_eq!(Board::parse("3x5e:A"), Err(ParseError::InvalidNumber));
    assert_eq!(Board::parse("3xe5:A"), Err(ParseError::InvalidNumber));
    assert_eq!(Board::parse("3x5e2.0:A"), Err(ParseError::InvalidNumber));
    assert_eq!(Board::parse("9000000x5:A"), Err(ParseError::OutOfRange));
    assert_eq!(Board::parse("3x0.001:A"), Err(ParseError::OutOfRange));
    assert_eq!(Board::parse("-3x5:A"), Err(ParseError::LengthNotPositive));
    assert_eq!(Board::parse("-3x0.001:A"), Err(ParseError::OutOfRange));
    assert_eq!(Board::parse("3x-0.001:A"), Err(ParseError::WidthNotPositive));
    assert_eq!(Board::parse("3x5:"), Err(ParseError::EmptyId));
}

#[test]
fn board_parse_reads_decimals() {
    let b = Board::parse("+.5x8388607.999:Big board x:y").unwrap();
    assert_eq!(b.length, 256);
    assert_eq!(b.width, u32::MAX);
    assert_eq!(b.id, "Big board x:y");
    assert_eq!(Board::parse("7.x0.0019531:Q"), Err(ParseError::OutOfRange));
    let b = Board::parse("7.x0.001953125:Q").unwrap();
    assert_eq!(b.length, 7 * 512);
    assert_eq!(b.width, 1);
    let b = Board::parse("4.8x1.00000000000000000001:Q").unwrap();
    assert_eq!(b.length, 2457);
    assert_eq!(b.width, 512);
}

#[test]
fn parse_reads_exponents() {
    let b = Board::parse("1e2x5:A").unwrap();
    assert_eq!((b.length, b.width), (steps(100.0), steps(5.0)));
    let c = Cut::parse("2@1e1x4:A").unwrap();
    assert_eq!((c.count, c.length, c.width), (2, steps(10.0), steps(4.0)));
    let b = Board::parse("12.5E+1x25e-1:B").unwrap();
    assert_eq!((b.length, b.width), (steps(125.0), steps(2.5)));
    let b = Board::parse("96x0.00048e1:C").unwrap();
    assert_eq!(b.width, 2);
    let b = Board::parse("1953125e-9x8388607.999e0:D").unwrap();
    assert_eq!((b.length, b.width), (1, u32::MAX));
    assert_eq!(Board::parse("8388608e0x1:A"), Err(ParseError::OutOfRange));
    assert_eq!(Board::parse("1e99999999999999999999999999999999999x1:A"), Err(ParseError::OutOfRange));
    assert_eq!(Board::parse("1e-99999999999999999999999999999999999x1:A"), Err(ParseError::OutOfRange));
    assert_eq!(Board::parse("0e99999999999999999999999999999999999x1:A"), Err(ParseError::LengthNotPositive));
    assert_eq!(Board::parse("-1e3x1:A"), Err(ParseError::LengthNotPositive));
}

#[test]
fn counts_stay_within_i32() {
    assert_eq!(Cut::parse("2147483647@1x1:A").unwrap().count, 2147483647);
    assert_eq!(Cut::parse("2147483648@1x1:A"), Err(ParseError::InvalidNumber));
    assert_eq!(Cut::parse("-2147483648@1x1:A"), Err(ParseError::CountBelowOne));
    assert_eq!(Cut::parse("-2147483649@1x1:A"), Err(ParseError::InvalidNumber));
}

#[test]
fn cut_parse_reports_each_error() {
    assert_eq!(Cut::parse("2x4:A"), Err(ParseError::InvalidFormat));
    assert_eq!(Cut::parse("x@2x4:A"), Err(ParseError::InvalidNumber));
    assert_eq!(Cut::parse("0@2x4:A"), Err(ParseError::CountBelowOne));
    assert_eq!(Cut::parse("2@24:A"), Err(ParseError::InvalidFormat));
    assert_eq!(Cut::parse("2@0x4:A"), Err(ParseError::LengthNotPositive));
    assert_eq!(Cut::parse("2@2x4"), Err(ParseError::InvalidFormat));
    assert_eq!(Cut::parse("2@2x-4:A"), Err(ParseError::WidthNotPositive));
    assert_eq!(Cut::parse("2@2x4.4.4:A"), Err(ParseError::InvalidNumber));
    let c = Cut::parse("+3@2x4:").unwrap();
    assert_eq!((c.count, c.length, c.width, c.name.as_str()), (3, 1024, 2048, ""));
}

#[test]
fn input_from_specifications() {
    let boards = vec!["96x8:A".to_string(), "48x4:B".to_string()];
    let cuts = vec!["2@18x3:Apron".to_string()];
    let input = Input::from(5, &boards, &cuts).unwrap();
    assert_eq!(input.spacing, 5);
    assert_eq!(input.boards.len(), 2);
    assert_eq!(input.boards[1].id, "B");
    assert_eq!(input.cutlist.len(), 1);
    assert_eq!(input.cutlist[0].count, 2);
}

#[test]
fn input_from_reports_the_first_error() {
    let good_boards = vec!["96x8:A".to_string()];
    let good_cuts = vec!["2@18x3:Apron".to_string()];
    let bad_boards = vec!["96x8:A".to_string(), "0x8:B".to_string(), "96x8".to_string()];
    let bad_cuts = vec!["0@1x1:A".to_string()];
    assert_eq!(Input::from(0, &bad_boards, &bad_cuts).unwrap_err(), ParseError::LengthNotPositive);
    assert_eq!(Input::from(0, &vec![], &bad_cuts).unwrap_err(), ParseError::NoBoards);
    assert_eq!(Input::from(0, &good_boards, &bad_cuts).unwrap_err(), ParseError::CountBelowOne);
    assert_eq!(Input::from(0, &good_boards, &vec![]).unwrap_err(), ParseError::NoCuts);
    assert!(Input::from(0, &good_boards, &good_cuts).is_ok());
}
