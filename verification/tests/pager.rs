//! Keys, screens and commands.

use pg_bager::config::Config;
use pg_bager::layout::{InteractiveOutput, Processed};
use pg_bager::pager::{
    clear_screen, command_names, configured_pager, console_key, default_pager_command, delivery,
    first_row, key_timeout_ms, next_step, pager_shell, read_key, render_interactive_row, Delivery,
    Key, KeyRead, KeyState, Step, VK_DOWN, VK_UP,
};
use pg_bager::term::Protocol;

fn output(rows: usize) -> InteractiveOutput {
    InteractiveOutput {
        prefix: b"head\n".to_vec(),
        rows: (0..rows).map(|row| format!("row{row}\n").into_bytes()).collect(),
        suffix: b"tail\n".to_vec(),
    }
}

#[test]
fn the_output_goes_where_it_belongs() {
    for (fallback, rewritten, interactive, expected) in [
        (true, true, true, Delivery::Fallback),
        (true, false, false, Delivery::Fallback),
        (false, true, true, Delivery::Interactive),
        (false, true, false, Delivery::Stdout),
        (false, false, false, Delivery::DefaultPager),
        (false, false, true, Delivery::DefaultPager),
    ] {
        let config = Config {
            max_row_bytes: 1,
            max_pixels_w: None,
            max_pixels_h: None,
            disable: false,
            fallback: fallback.then(|| "cat".to_string()),
        };
        let processed = Processed {
            bytes: Vec::new(),
            rewritten,
            passthrough: !rewritten,
            interactive: interactive.then(|| output(1)),
        };
        assert_eq!(delivery(&config, &processed), expected);
    }
}

#[test]
fn arrows_move_by_one_row() {
    let output = output(3);
    assert_eq!(first_row(&output), Some(0));
    assert_eq!(next_step(&output, 0, Key::Down), Step::Show(1));
    assert_eq!(next_step(&output, 1, Key::Up), Step::Show(0));
    assert_eq!(next_step(&output, 0, Key::Up), Step::Show(0));
    assert_eq!(next_step(&output, 2, Key::Down), Step::Show(2));
    assert_eq!(next_step(&output, 1, Key::Other), Step::Show(1));
    assert_eq!(next_step(&output, 1, Key::Quit), Step::Leave);
}

#[test]
fn a_table_without_rows_shows_nothing() {
    assert_eq!(first_row(&output(0)), None);
}

#[test]
fn a_screen_shows_one_row() {
    let mut out = b">".to_vec();
    render_interactive_row(&mut out, &output(12), 9, Protocol::Sixel);
    assert_eq!(
        String::from_utf8(out).unwrap(),
        ">\x1b[2J\x1b[Hhead\nrow9\ntail\n\x1b[7m row 10/12 - Up/Down: navigate - q: quit \x1b[0m"
    );
}

#[test]
fn the_status_is_on_its_own_line() {
    for suffix in ["", "tail"] {
        let mut shown = output(1);
        shown.suffix = suffix.as_bytes().to_vec();
        let mut out = Vec::new();
        render_interactive_row(&mut out, &shown, 0, Protocol::Kitty);
        assert_eq!(
            String::from_utf8(out).unwrap(),
            format!(
                "\x1b_Ga=d,d=A\x1b\\\x1b[2J\x1b[Hhead\nrow0\n{suffix}\n\
                 \x1b[7m row 1/1 - Up/Down: navigate - q: quit \x1b[0m"
            )
        );
    }
}

#[test]
fn clearing_removes_the_images_of_kitty() {
    for (protocol, expected) in [
        (Protocol::Kitty, "\x1b_Ga=d,d=A\x1b\\\x1b[2J\x1b[H"),
        (Protocol::ITerm2, "\x1b[2J\x1b[H"),
        (Protocol::Plain, "\x1b[2J\x1b[H"),
    ] {
        let mut out = Vec::new();
        clear_screen(&mut out, protocol);
        assert_eq!(String::from_utf8(out).unwrap(), expected);
    }
}

fn key_of(bytes: &[Option<u8>]) -> (Key, usize) {
    let mut state = KeyState::Start;
    for (index, byte) in bytes.iter().enumerate() {
        match read_key(state, *byte) {
            KeyRead::Complete(key) => return (key, index + 1),
            KeyRead::Partial(next) => state = next,
        }
    }
    panic!("no key in {bytes:?}");
}

#[test]
fn keys_are_read_from_a_terminal() {
    assert_eq!(key_of(&[Some(b'q')]), (Key::Quit, 1));
    assert_eq!(key_of(&[Some(b'Q')]), (Key::Quit, 1));
    assert_eq!(key_of(&[Some(b'x')]), (Key::Other, 1));
    assert_eq!(key_of(&[Some(0x1b), Some(b'['), Some(b'A')]), (Key::Up, 3));
    assert_eq!(key_of(&[Some(0x1b), Some(b'['), Some(b'B')]), (Key::Down, 3));
    assert_eq!(key_of(&[Some(0x1b), Some(b'['), Some(b'C')]), (Key::Other, 3));
    assert_eq!(key_of(&[Some(0x1b), Some(b'['), None]), (Key::Other, 3));
    assert_eq!(key_of(&[Some(0x1b), Some(b'q')]), (Key::Other, 2));
    assert_eq!(key_of(&[Some(0x1b), None]), (Key::Other, 2));
    assert_eq!(key_of(&[None, Some(b'q')]), (Key::Quit, 2));
    assert_eq!(key_timeout_ms(KeyState::Start), None);
    assert_eq!(key_timeout_ms(KeyState::Escaped), Some(100));
    assert_eq!(key_timeout_ms(KeyState::Bracketed), Some(100));
}

#[test]
fn keys_are_read_from_a_console() {
    assert_eq!(console_key(true, true, VK_UP, 0), Some(Key::Up));
    assert_eq!(console_key(true, true, VK_DOWN, 0), Some(Key::Down));
    assert_eq!(console_key(true, true, 0x51, b'q' as u16), Some(Key::Quit));
    assert_eq!(console_key(true, true, 0x51, b'Q' as u16), Some(Key::Quit));
    assert_eq!(console_key(true, true, 0x41, b'a' as u16), Some(Key::Other));
    assert_eq!(console_key(true, true, 0x41, 0xd800), Some(Key::Other));
    assert_eq!(console_key(true, false, VK_UP, 0), None);
    assert_eq!(console_key(false, true, VK_UP, 0), None);
}

#[test]
fn a_blank_pager_is_none() {
    for blank in ["", " ", "\t\n\r ", "\u{b}\u{c}\u{85}\u{a0}", "\u{2003}\u{3000}"] {
        assert!(blank.trim().is_empty());
        assert_eq!(configured_pager(Some(blank.to_string())), None);
    }
    for command in ["less", " cat ", "\u{200b}", "\u{180e}"] {
        assert!(!command.trim().is_empty());
        assert_eq!(
            configured_pager(Some(command.to_string())),
            Some(command.to_string())
        );
    }
    assert_eq!(configured_pager(None), None);
}

#[test]
fn white_space_is_that_of_unicode() {
    for code in 0..=0x10_ffff {
        if let Some(character) = char::from_u32(code) {
            if code < 0x4000 || code % 0x101 == 0 {
                let text = character.to_string();
                assert_eq!(
                    configured_pager(Some(text.clone())).is_none(),
                    text.trim().is_empty()
                );
            }
        }
    }
}

#[test]
fn some_pager_is_always_there() {
    assert_eq!(default_pager_command(true, true), "less -R");
    assert_eq!(default_pager_command(true, false), "less -R");
    assert_eq!(default_pager_command(false, true), "more");
    assert_eq!(default_pager_command(false, false), "cat");
}

#[test]
fn commands_have_several_names() {
    assert_eq!(command_names("less", true, ".COM;.EXE"), ["less"]);
    assert_eq!(
        command_names("less", false, ".COM;;.EXE;"),
        ["less", "less.COM", "less.EXE"]
    );
    assert_eq!(command_names("less", false, ""), ["less"]);
    assert_eq!(command_names("é", false, "ü;x"), ["é", "éü", "éx"]);
}

#[test]
fn commands_run_in_a_shell() {
    assert_eq!(pager_shell("less -R", false), ["sh", "-c", "less -R"]);
    assert_eq!(
        pager_shell("more", true),
        ["powershell", "-NoProfile", "-Command", "more"]
    );
}
