use are_world::conencode::{ConEncoder, Matrix, NVTer};
use are_world::gnd::plant::Plant;
use are_world::gnd::Item;
use are_world::grids::{Coord, Interval};
use are_world::online::{
    compose_output, drop_written, parse_command, parse_isize, parse_u32, queue_output, read_commands, resource, split_next_command,
    watch_view, Command, ConstCommand, Mode, MutCommand, OUTPUT_BUFFER_MAX_SIZE,
};
use are_world::plate::Plate;
use are_world::text::push_decimal;

#[test]
fn split_incomplete_and_bad() {
    assert_eq!(split_next_command("").unwrap().is_none(), true);
    assert_eq!(split_next_command("   \t").unwrap().is_none(), true);
    assert!(split_next_command("/light 1 2").unwrap().is_none());
    assert!(split_next_command("  é").is_err());
}

#[test]
fn split_single_character_command() {
    let (cmd, args, rest) = split_next_command("  ab").unwrap().unwrap();
    assert_eq!(cmd, "a");
    assert!(args.is_empty());
    assert_eq!(rest, "b");
}

#[test]
fn split_line_command() {
    let (cmd, args, rest) = split_next_command(" /set  element 3 4\t5\r\nmore").unwrap().unwrap();
    assert_eq!(cmd, "set");
    assert_eq!(args, vec!["element", "3", "4", "5"]);
    assert_eq!(rest, "more");
    let (cmd, args, rest) = split_next_command("/  \r\n").unwrap().unwrap();
    assert_eq!(cmd, "  ");
    assert!(args.is_empty());
    assert_eq!(rest, "");
}

#[test]
fn parse_numbers() {
    assert_eq!(parse_u32("42"), Some(42));
    assert_eq!(parse_u32("+7"), Some(7));
    assert_eq!(parse_u32("-7"), None);
    assert_eq!(parse_u32(""), None);
    assert_eq!(parse_u32("+"), None);
    assert_eq!(parse_u32("4294967295"), Some(u32::MAX));
    assert_eq!(parse_u32("4294967296"), None);
    assert_eq!(parse_u32("12a"), None);
    assert_eq!(parse_isize("-15"), Some(-15));
    assert_eq!(parse_isize("+0"), Some(0));
    assert_eq!(parse_isize("-"), None);
    assert_eq!(parse_isize(&isize::MIN.to_string()), Some(isize::MIN));
    assert_eq!(parse_isize(&isize::MAX.to_string()), Some(isize::MAX));
    assert_eq!(parse_isize("99999999999999999999999"), None);
    for s in ["0", "-1", "+12", "007", "1 2", "x", "-0", "--1"] {
        assert_eq!(parse_isize(s), s.parse::<isize>().ok());
        assert_eq!(parse_u32(s), s.parse::<u32>().ok());
    }
}

#[test]
fn parse_commands() {
    match parse_command("set", &vec!["element", "9", "-1", "2"]) {
        Ok(Command::Mut(MutCommand::SetElement { pos, value })) => {
            assert_eq!(pos, Coord(-1, 2));
            assert_eq!(value, 9);
        }
        _ => panic!("not a set command"),
    }
    assert!(parse_command("set", &vec!["element", "9", "-1"]).is_err());
    assert!(parse_command("set", &vec!["water", "9", "1", "2"]).is_err());
    match parse_command("light", &vec!["3", "4", "extra"]) {
        Ok(Command::Const(ConstCommand::Light { pos })) => assert_eq!(pos, Coord(3, 4)),
        _ => panic!("not a light command"),
    }
    assert!(parse_command("light", &vec!["3"]).is_err());
    match parse_command("mode", &vec!["BLind"]) {
        Ok(Command::Const(ConstCommand::Mode { mode })) => assert_eq!(mode, Mode::Blind),
        _ => panic!("not a mode command"),
    }
    match parse_command("mode", &vec!["monitor"]) {
        Ok(Command::Const(ConstCommand::Mode { mode })) => assert_eq!(mode, Mode::Monitor),
        _ => panic!("not a mode command"),
    }
    assert!(parse_command("mode", &vec!["loud"]).is_err());
    assert!(parse_command("fly", &vec![]).is_err());
}

#[test]
fn read_commands_keeps_what_is_incomplete() {
    let (cmds, left) = read_commands("/light 1 2\r\nx/mode blind\r\n/set element").unwrap();
    assert_eq!(cmds.len(), 2);
    assert!(matches!(cmds[0], Command::Const(ConstCommand::Light { pos: Coord(1, 2) })));
    assert!(matches!(cmds[1], Command::Const(ConstCommand::Mode { mode: Mode::Blind })));
    assert_eq!(left, "/set element");
    assert!(read_commands("/light 1 2\r\n ü").is_err());
}

#[test]
fn resource_pads_names() {
    assert_eq!(resource(&"Gr12".to_string(), 0), [['G'], ['r'], ['1'], ['2'], [' ']]);
    assert_eq!(resource(&"T12345".to_string(), 3), [['T'], ['1'], ['2'], ['3'], ['4']]);
    assert_eq!(resource(&String::new(), 0), [[' '], [' '], [' '], [' '], [' ']]);
}

#[test]
fn nvt_paints_pages() {
    let mut g = Matrix::new(Coord(2, 2), '.');
    g.data[1] = '#';
    let expected: Vec<char> = "\r\n\x0C.#\r\n..\r\n".chars().collect();
    assert_eq!(NVTer::repaint(&g), expected);
    let mut t = NVTer::new();
    assert_eq!(t.flush(&g), expected);
    assert_eq!(t.last_graph.data, g.data);
    assert_eq!(t.update(&g), expected);
    assert_eq!(t.bell(), vec!['\x07']);
    assert_eq!(g.get(Coord(1, 0)), '#');
    let empty = Matrix::new(Coord(0, 0), ' ');
    assert_eq!(NVTer::repaint(&empty), vec!['\r', '\n', '\x0C']);
}

#[test]
fn decimals_are_padded() {
    let mut s = String::from("x");
    push_decimal(&mut s, 7, 3);
    assert_eq!(s, "x007");
    push_decimal(&mut s, 12345, 2);
    assert_eq!(s, "x00712345");
    push_decimal(&mut s, 0, 0);
    assert_eq!(s, "x007123450");
}

#[test]
fn watch_view_draws_names_row_by_row() {
    let mut plate = Plate::new(Coord(3, 2));
    plate.blocks[1].ground.item = Item::Plant(Plant { kind: 0, birthday: 0 });
    plate.blocks[5].ground.item = Item::Plant(Plant { kind: 1, birthday: 0 });
    plate.blocks[3].ground.item = Item::Plant(Plant { kind: 9, birthday: 0 });
    // columns 2 and 0 (going around), rows 1 and 0 (going around)
    let area = Coord(Interval { from: 2, to: 3 }, Interval { from: 1, to: 2 });
    let v = watch_view(&plate, area);
    assert_eq!(v.size, Coord(10, 2));
    let text: String = v.data.iter().collect();
    assert_eq!(text, "tree ?    air  air  ");
}

#[test]
fn compose_output_marks_answers_and_input() {
    let out = compose_output(b"VIEW".to_vec(), vec![b"one".to_vec(), b"two".to_vec()], &b"li".to_vec());
    assert_eq!(out, b"VIEW\r\n< one\r\n< two\r\n> li".to_vec());
    let quiet = compose_output(Vec::new(), Vec::new(), &Vec::new());
    assert!(quiet.is_empty());
}

#[test]
fn output_buffer_limits_and_drains() {
    let mut buf = b"abc".to_vec();
    assert!(queue_output(&mut buf, b"de".to_vec()).is_ok());
    assert_eq!(buf, b"abcde".to_vec());
    drop_written(&mut buf, 2);
    assert_eq!(buf, b"cde".to_vec());
    assert!(queue_output(&mut buf, vec![0u8; OUTPUT_BUFFER_MAX_SIZE - 2]).is_err());
    assert_eq!(buf, b"cde".to_vec());
    assert!(queue_output(&mut buf, vec![0u8; OUTPUT_BUFFER_MAX_SIZE - 3]).is_ok());
    assert_eq!(buf.len(), OUTPUT_BUFFER_MAX_SIZE);
    drop_written(&mut buf, OUTPUT_BUFFER_MAX_SIZE);
    assert!(buf.is_empty());
}
