//! Terminals: what is typed and reported, and what consumers get of a payload.
use goblins::json::Json;
use goblins::replies::turned_away;
use goblins::screen::{Screen, LARGEST};
use goblins::terminal::{
    InputEvents, PayloadRead, PeerRead, Terminal, Wrote, CAP, INPUT_ESCAPE_TIMEOUT,
};

const SECOND: u64 = 1_000_000_000;

const PROMPT: &str = "Check your Goblins inbox and process the next item.";

const HELLO: &[u8] = b"{\"result\":{\"attached\":true}}";

/// A terminal with both of its ends in memory.
struct Fixture {
    terminal: Terminal,
    now: u64,
    /// What the payload wrote and the terminal did not read yet.
    payload: Vec<u8>,
    payload_ended: bool,
    /// What reached the payload.
    typed: Vec<u8>,
    /// What the consumer sent and the terminal did not read yet.
    sent: Vec<u8>,
    gone: bool,
    /// What reached the consumer.
    received: Vec<u8>,
    closed: bool,
}

impl Fixture {
    fn new() -> Fixture {
        let now = 100 * SECOND;
        let mut terminal = Terminal::new(now);
        terminal.master();
        Fixture {
            terminal,
            now,
            payload: Vec::new(),
            payload_ended: false,
            typed: Vec::new(),
            sent: Vec::new(),
            gone: false,
            received: Vec::new(),
            closed: false,
        }
    }

    fn write(&mut self, bytes: &[u8]) {
        self.payload.extend_from_slice(bytes);
    }

    /// The code with which another consumer is turned away.
    fn refused(&mut self) -> i64 {
        let why = self.terminal.attach(HELLO.to_vec()).err().unwrap();
        match turned_away(&why).get("error").unwrap().get("code") {
            Some(Json::Negative(code)) => *code,
            _ => panic!("no code"),
        }
    }

    fn tick(&mut self) {
        self.terminal.expire(self.now);
        let room = self.terminal.input_room();
        if self.sent.is_empty() || room == 0 {
            let read = if self.gone { PeerRead::Closed } else { PeerRead::Nothing };
            self.terminal.peer_read(read, self.now);
        } else {
            let n = room.min(self.sent.len());
            let bytes: Vec<u8> = self.sent.drain(..n).collect();
            self.terminal.peer_read(PeerRead::Bytes(bytes), self.now);
        }
        let room = self.terminal.output_room();
        if room > 0 {
            let read = if self.payload.is_empty() {
                if self.payload_ended {
                    PayloadRead::Hangup
                } else {
                    PayloadRead::Blocked
                }
            } else {
                let n = room.min(self.payload.len());
                PayloadRead::Bytes(self.payload.drain(..n).collect())
            };
            self.terminal.payload_read(read, self.now);
        }
        let pending = self.terminal.pty_pending().to_vec();
        if !pending.is_empty() {
            self.typed.extend_from_slice(&pending);
            self.terminal.pty_wrote(Wrote::Bytes(pending.len()));
        }
        loop {
            let pending = self.terminal.peer_pending().to_vec();
            if pending.is_empty() {
                break;
            }
            if self.gone {
                self.terminal.peer_wrote(Wrote::Failed);
            } else {
                self.received.extend_from_slice(&pending);
                self.terminal.peer_wrote(Wrote::Bytes(pending.len()));
            }
        }
        if self.terminal.settle() {
            self.closed = true;
        }
    }

    fn connect(&mut self) {
        self.gone = false;
        self.sent.clear();
        self.received.clear();
        self.terminal.attach(HELLO.to_vec()).unwrap();
        self.tick();
        assert!(self.received.starts_with(HELLO));
        self.received.drain(..HELLO.len());
    }

    fn leave(&mut self) {
        self.gone = true;
        self.tick();
    }
}

#[test]
fn terminal_reports_are_independent_of_stream_read_boundaries() {
    let now = SECOND;
    let reports = b"\x1b[I\x1b[O\x1b[12;3R\x1b[?1;2c";
    for split in 0..=reports.len() {
        let mut input = InputEvents::new();
        assert_eq!(input.observe(&reports[..split], now), None);
        assert_eq!(input.observe(&reports[split..], now), None);
        assert!(!input.is_pending());
    }
    let mut input = InputEvents::new();
    for byte in reports {
        assert_eq!(input.observe(&[*byte], now), None);
    }
    assert!(!input.is_pending());
    for bytes in [
        b"\x1b[Idraft\x1b[O".as_slice(),
        b"\x1b[A", // Arrow keys are typed.
        b"\x1b[200~paste\x1b[201~",
        b"\x1b[1I", // Only focus events without parameters are reports.
    ] {
        assert_eq!(input.observe(bytes, now), Some(false));
    }
    assert_eq!(input.observe(b"\x03\x1b[O", now), Some(true));
}

#[test]
fn incomplete_terminal_reports_expire_without_losing_escape_interrupts() {
    let now = SECOND;
    let mut input = InputEvents::new();
    assert_eq!(input.observe(b"\x1b", now), None);
    assert_eq!(input.observe(&[], now + INPUT_ESCAPE_TIMEOUT), Some(true));
    assert!(!input.is_pending());
    assert_eq!(input.observe(b"\x1b[", now), None);
    assert_eq!(input.observe(&[], now + INPUT_ESCAPE_TIMEOUT), Some(false));
    assert!(!input.is_pending());
    let oversized = format!("\x1b[{}", "1".repeat(100));
    assert_eq!(input.observe(oversized.as_bytes(), now), Some(false));
    assert!(!input.is_pending());
}

#[test]
fn focus_changes_preserve_idle_input_revision_and_raw_pty_bytes() {
    let mut f = Fixture::new();
    f.connect();
    f.write("\x1b[2J\x1b[H\u{203a} \x1b[?25h".as_bytes());
    f.tick();
    f.now += SECOND;
    let idle = f.terminal.integration_view(f.now);
    assert!(idle.ready);
    for chunk in [b"\x1b".as_slice(), b"[", b"I\x1b[", b"O"] {
        f.sent.extend_from_slice(chunk);
        f.tick();
        let view = f.terminal.integration_view(f.now);
        assert_eq!(view.input, idle.input);
        if view.input_pending {
            assert!(!view.ready);
        }
    }
    assert_eq!(f.typed, b"\x1b[I\x1b[O".to_vec());
    let view = f.terminal.integration_view(f.now);
    assert!(view.ready);
    assert!(f.terminal.notify(view.revision, false, f.now).is_ok());
    f.terminal.notified();
    f.sent.extend_from_slice(b"\x1b[Idraft\x1b[O");
    f.tick();
    assert!(f.terminal.integration_view(f.now).input > idle.input);
}

#[test]
fn wake_requires_current_empty_composer_and_yields_to_human_input() {
    let mut f = Fixture::new();
    f.terminal.launch_detached(true);
    f.write(
        "\x1b[2J\x1b[H\u{203a} \x1b[2mAsk a question\x1b[0m\x1b[1;3H\x1b[?25h".as_bytes(),
    );
    f.tick();
    f.now += SECOND;
    let view = f.terminal.integration_view(f.now);
    assert!(view.ready);
    assert!(f.terminal.notify(view.revision + 1, false, f.now).is_err());
    let bytes = f.terminal.notify(view.revision, false, f.now).unwrap();
    f.terminal.notified();
    assert_eq!(bytes, format!("\x1b[200~{}\x1b[201~\r", PROMPT).into_bytes());
    f.connect();
    f.sent.extend_from_slice(b"draft");
    let now = f.terminal.integration_view(f.now).revision;
    assert!(f.terminal.notify(now, true, f.now).is_err());
    f.tick();
    assert_eq!(f.terminal.integration_view(f.now).input, 1);
    f.write("\x1b[2J\x1b[H\u{203a} existing draft\x1b[1;3H".as_bytes());
    f.tick();
    f.now += SECOND;
    assert!(!f.terminal.integration_view(f.now).ready);
}

#[test]
fn wake_recognizes_an_indented_claude_composer() {
    let mut f = Fixture::new();
    f.terminal.launch_detached(true);
    f.write(
        "\x1b[2J\x1b[H  \u{276f} \x1b[2mTry a command\x1b[0m\x1b[1;5H\x1b[?25h".as_bytes(),
    );
    f.tick();
    f.now += SECOND;
    let view = f.terminal.integration_view(f.now);
    assert!(view.ready);
    assert!(f.terminal.notify(view.revision, false, f.now).is_ok());
}

#[test]
fn a_busy_or_hidden_screen_is_not_disturbed() {
    for screen in [
        "\x1b[2J\x1b[H\u{203a} \x1b[?25l",
        "\x1b[2J\x1b[Hworking (esc to interrupt)\r\n\u{203a} \x1b[?25h",
        "\x1b[2J\x1b[H$ \x1b[?25h",
    ] {
        let mut f = Fixture::new();
        f.terminal.launch_detached(true);
        f.write(screen.as_bytes());
        f.tick();
        f.now += SECOND;
        assert!(!f.terminal.integration_view(f.now).ready);
    }
    let mut f = Fixture::new();
    f.terminal.launch_detached(true);
    f.write("\x1b[2J\x1b[H\u{203a} \x1b[?25h".as_bytes());
    f.tick();
    // The screen has not settled yet.
    assert!(!f.terminal.integration_view(f.now).ready);
    f.now += SECOND;
    assert!(f.terminal.integration_view(f.now).ready);
    // A narrower screen shows what still fits it.
    f.terminal.resize(24, 40);
    assert!(f.terminal.integration_view(f.now).ready);
    // It goes on from there.
    f.write(b"\x1b[2;1H\x1b[1;3H");
    f.tick();
    f.now += SECOND;
    assert!(f.terminal.integration_view(f.now).ready);
    f.terminal.resize(1, 1);
    assert!(!f.terminal.integration_view(f.now).ready);
    f.write("wide \u{ff37} and a long line\r\n".as_bytes());
    f.tick();
    assert!(!f.terminal.integration_view(f.now).ready);
}

#[test]
fn half_a_wide_character_is_not_touched() {
    let wide = "\u{ff37}".as_bytes();
    let mut s = Screen::new(24, 80);
    assert_eq!(s.size(), (24, 80));
    s.draw(b"\x1b[1;59H");
    s.draw(wide);
    // All of it is gone, or its second half.
    s.resize(24, 58);
    assert!(s.takes(b'x') && s.takes(0xff));
    let mut s = Screen::new(24, 80);
    s.draw("\u{276f} \x1b[5;59H".as_bytes());
    s.draw(wide);
    s.resize(24, 59);
    assert_eq!(s.size(), (24, 59));
    assert!(!s.takes(b'x') && s.takes(b'\n') && s.takes(0x1b) && s.takes(0xef));
    s.draw(b"\x1b[2;59H");
    assert!(s.takes(b'x'));
    s.draw(b"\x1b[5;58H");
    assert!(s.takes(b'x'));
    s.draw(&wide[..2]);
    assert!(!s.takes(wide[2]));
    s.draw(b"\x1b[5;3H");
    // What erases in another row, or nothing, is taken.
    s.draw(b"\x1b[");
    assert!(!s.takes(b'K') && !s.takes(b'J') && s.takes(b'm') && s.takes(b'4'));
    s.draw(b"2;1H\x1b[");
    assert!(s.takes(b'K') && s.takes(b'X'));
    s.draw(b"1;3H");
    assert!(s.awaits());
    // Room beside it does not make it whole.
    s.resize(24, 80);
    s.draw(b"\x1b[5;60H");
    assert!(s.takes(b'x'));
    s.draw(b"\x1b[5;59H");
    assert!(!s.takes(b'x'));
    // What cannot be drawn is left out, and the screen starts anew.
    s.draw(b"x");
    assert!(!s.awaits());
    s.draw("\u{276f} ".as_bytes());
    assert_eq!(s.size(), (24, 80));
    assert!(s.awaits());
    // The screen that is not shown is cut too.
    let mut s = Screen::new(24, 80);
    s.draw(b"\x1b[1;59H");
    s.draw(wide);
    s.draw(b"\x1b[?1049h\x1b[1;59Hx");
    s.resize(24, 59);
    assert!(s.takes(b'x'));
    s.draw(b"\x1b[?1049l");
    assert!(!s.takes(b'x'));
}

#[test]
fn a_small_screen_takes_what_fits_it() {
    let wide = "\u{ff37}".as_bytes();
    let narrow = "\u{203a}".as_bytes();
    // A screen of one row does not wrap.
    let mut s = Screen::new(1, 80);
    s.draw(b"\x1b[79G$");
    s.draw(&wide[..2]);
    assert!(!s.takes(wide[2]));
    s.draw(&narrow[..2]);
    assert!(s.takes(narrow[2]) && s.takes(b'x') && s.takes(b'\n'));
    s.process(narrow[2]);
    assert!(!s.takes(b'x') && s.takes(b'\n') && s.takes(0x80));
    // A sequence and a title are not drawn.
    for byte in b"\x1b[1;80H\x1b]2;title\x07" {
        assert!(s.takes(*byte));
        s.process(*byte);
    }
    s.draw(b"$");
    assert!(!s.takes(b'$'));
    s.draw(b"$\x1b[80G");
    assert!(s.takes(b'$'));
    // A narrow one takes no character that is wider.
    let mut s = Screen::new(24, 2);
    assert!(s.takes(b'x') && s.takes(0x97) && s.takes(0x98));
    s.draw(&"\u{17d8}".as_bytes()[..2]);
    assert!(s.takes(0x97) && !s.takes(0x98));
    s.resize(24, 1);
    s.draw(b"x");
    s.draw(&narrow[..2]);
    assert!(s.takes(narrow[2]));
    s.draw(&wide[..2]);
    assert!(!s.takes(wide[2]));
    s.draw(wide);
    assert_eq!(s.size(), (24, 1));
    assert_eq!(LARGEST, 1000);
    let mut s = Screen::new(2, LARGEST);
    s.draw(b"\x1b[65535G\t\tx");
    assert!(s.takes(b'\t'));
    let mut s = Screen::new(24, 80);
    s.draw("\u{276f} ".as_bytes());
    assert!(s.awaits());
    s.resize(24, 3);
    assert!(s.awaits());
    s.resize(24, 1);
    assert!(!s.awaits());
}

#[test]
fn wide_characters_are_seen() {
    for c in ["\u{1100}", "\u{17d8}", "\u{3042}", "\u{ff37}", "\u{1f41f}"] {
        let mut s = Screen::new(24, 80);
        s.draw(b"\x1b[3;20H");
        s.draw(c.as_bytes());
        s.resize(24, 20);
        s.draw(b"\x1b[3;20H");
        assert!(!s.takes(b' '));
        let (last, first) = c.as_bytes().split_last().unwrap();
        let mut s = Screen::new(1, 3);
        s.draw(b"xx");
        s.draw(first);
        assert!(!s.takes(*last));
    }
    for c in ["\u{e9}", "\u{203a}", "\u{2500}", "\u{301}", "\u{10000}"] {
        let mut s = Screen::new(24, 80);
        s.draw(b"\x1b[3;20H");
        s.draw(c.as_bytes());
        s.resize(24, 20);
        s.draw(b"\x1b[3;20H");
        assert!(s.takes(b' '));
        let (last, first) = c.as_bytes().split_last().unwrap();
        let mut s = Screen::new(1, 3);
        s.draw(b"xx");
        s.draw(first);
        assert!(s.takes(*last));
    }
}

#[test]
fn any_output_can_be_drawn() {
    let pieces: [&[u8]; 30] = [
        b"x",
        b"hlcKJ",
        "\u{ff37}".as_bytes(),
        "\u{1f41f}".as_bytes(),
        "\u{17d8}".as_bytes(),
        "\u{203a}".as_bytes(),
        "\u{301}".as_bytes(),
        b"\x1b[K",
        b"\x1b[1K",
        b"\x1b[J",
        b"\x1b[1J",
        b"\x1b[2X",
        b"\x1b[P",
        b"\x1b[3P",
        b"\x1b[@",
        b"\x1b[2@",
        b"\x1b[H",
        b"\x1b[2;3H",
        b"\x1b[C",
        b"\x1b[D",
        b"\x1b[L",
        b"\x1b[M",
        b"\x1b[1;2r",
        b"\x1b[?47h",
        b"\x1b[?47l",
        b"\x1b[?1049h",
        b"\x1b[?1049l",
        b"\x1b7\x1b8\x1bM",
        b"\t\x08\r",
        b"\n\xe2\xff\x98",
    ];
    let mut seed: u64 = 7;
    let mut next = |n: usize| {
        seed = seed.wrapping_mul(6364136223846793005).wrapping_add(1442695040888963407);
        (seed >> 33) as usize % n
    };
    for _ in 0..2000 {
        let mut s = Screen::new(1 + next(4) as u16, 1 + next(6) as u16);
        for _ in 0..60 {
            if next(8) == 0 {
                s.resize(1 + next(4) as u16, 1 + next(6) as u16);
            }
            let piece = pieces[next(pieces.len())];
            let cut = if next(10) == 0 { next(piece.len()) } else { piece.len() };
            let size = s.size();
            s.draw(&piece[..cut]);
            assert_eq!(s.size(), size);
            let _ = s.awaits();
        }
    }
}

#[test]
fn abandoned_handshake_never_enters_reattached_output() {
    for size in [6, CAP] {
        let mut f = Fixture::new();
        let output = vec![b'x'; size];
        f.write(&output);
        while !f.payload.is_empty() {
            f.tick();
        }
        f.terminal.attach(HELLO.to_vec()).unwrap();
        // It is gone before the first byte of its acceptance can be sent.
        f.leave();
        f.connect();
        assert_eq!(f.received, output);
    }
}

#[test]
fn detach_preserves_payload_and_outcome_until_client_releases_stream() {
    let mut f = Fixture::new();
    f.connect();
    f.write(b"before");
    f.tick();
    assert_eq!(f.received, b"before".to_vec());
    f.terminal.detach().unwrap();
    assert!(f.terminal.detached());
    assert!(!f.terminal.interrupted());
    assert!(!f.terminal.complete());

    // Another one cannot take the place of a consumer that was sent away.
    assert_eq!(f.refused(), -32009);
    // What the departing one types does not reach the payload.
    f.sent.extend_from_slice(b"stale input");
    f.tick();
    assert!(f.terminal.pty_pending().is_empty());
    assert!(f.typed.is_empty());
    f.leave();
    f.write(b"after!");
    f.connect();
    assert_eq!(f.received, b"after!".to_vec());
    assert!(!f.terminal.detached());
    assert!(f.terminal.attached());
    f.sent.extend_from_slice(b"fresh!");
    f.tick();
    assert_eq!(f.typed, b"fresh!".to_vec());
    f.payload_ended = true;
    f.tick();
    assert!(f.closed);
    assert!(f.terminal.complete());
    assert_eq!(f.refused(), -32009);
}

#[test]
fn detached_output_is_bounded_and_connection_loss_allows_reattachment() {
    let mut f = Fixture::new();
    f.connect();
    f.leave();
    assert!(f.terminal.interrupted());
    assert!(!f.terminal.attached());
    for _ in 0..32 {
        f.write(&[b'x'; 8192]);
        f.tick();
    }
    f.tick();
    f.write(b"final!");
    f.tick();
    f.connect();
    assert_eq!(f.received.len(), CAP);
    assert!(f.received.ends_with(b"final!"));
    assert!(!f.terminal.interrupted());
}

#[test]
fn detached_launch_drains_output_before_first_attachment() {
    let mut f = Fixture::new();
    f.terminal.launch_detached(true);
    for _ in 0..32 {
        f.write(&[b'x'; 8192]);
        f.tick();
    }
    f.write(b"tail!");
    f.tick();
    f.connect();
    assert_eq!(f.received.len(), CAP);
    assert!(f.received.ends_with(b"tail!"));
}

#[test]
fn closed_consumer_releases_attachment_with_full_input_queue() {
    let mut f = Fixture::new();
    f.connect();
    let mut left = CAP;
    while left > 0 {
        let n = f.terminal.input_room();
        f.terminal.peer_read(PeerRead::Bytes(vec![b'x'; n]), f.now);
        left -= n;
    }
    assert_eq!(f.terminal.input_room(), 0);
    assert_eq!(f.terminal.pty_pending().len(), CAP);
    f.terminal.peer_read(PeerRead::Closed, f.now);
    assert!(f.terminal.pty_pending().is_empty());
    f.connect();
    assert!(f.terminal.pty_pending().is_empty());
    assert!(f.terminal.attached());
}

#[test]
fn second_consumer_is_rejected_without_interrupting_first() {
    let mut f = Fixture::new();
    f.connect();
    assert_eq!(f.refused(), -32009);
    f.write(b"ok");
    f.tick();
    assert_eq!(f.received, b"ok".to_vec());
    assert!(!f.terminal.interrupted());
}

#[test]
fn a_failed_start_can_be_forgotten() {
    let mut f = Fixture::new();
    assert!(!f.terminal.can_evict());
    f.terminal.failed_start();
    assert!(f.terminal.eof());
    assert!(f.terminal.can_evict());
    assert_eq!(f.terminal.detach().err().unwrap(), "terminal is not attached");
}
