use sidu::format::{parse_fmt, FormatCmd};
use sidu::machine::{has_directive, Action, Event, RenderError, Renderer, Text};
use sidu::radix::ByteFmt;

fn drive(template: &str, input: &[Result<u8, &'static str>], fail_write_at: Option<usize>)
    -> (String, usize, Result<(), RenderError<&'static str>>)
{
    let cmds = parse_fmt(template).unwrap();
    let mut renderer = Renderer::new(&cmds);
    let mut written = String::new();
    let mut writes = 0;
    let mut taken = 0;
    let mut event = Event::Ready;
    loop {
        assert!(renderer.accepts(&event));
        let (next, action) = renderer.step(event);
        renderer = next;
        event = match action {
            Action::Write(text) => {
                if fail_write_at == Some(writes) {
                    Event::WriteFailed("sink closed")
                } else {
                    writes += 1;
                    written.push_str(text.as_str());
                    Event::Ready
                }
            }
            Action::Read => match input.get(taken) {
                Some(Ok(b)) => {
                    taken += 1;
                    Event::Byte(*b)
                }
                Some(Err(cause)) => Event::ReadFailed(*cause),
                None => Event::EndOfInput,
            },
            Action::Finish(outcome) => {
                assert!(renderer.is_finished());
                return (written, taken, outcome);
            }
        };
    }
}

#[test]
fn driven_renderer_wraps_around() {
    let (text, taken, outcome) = drive("%d,", &[Ok(1), Ok(2), Ok(3)], None);
    assert_eq!(text, "1,2,3,");
    assert_eq!(taken, 3);
    assert_eq!(outcome, Ok(()));
}

#[test]
fn driven_renderer_stops_at_end_of_input() {
    let (text, taken, outcome) = drive("%d,", &[], None);
    assert_eq!(text, "");
    assert_eq!(taken, 0);
    assert_eq!(outcome, Ok(()));
}

#[test]
fn driven_renderer_emits_plain_text_once() {
    let (text, taken, outcome) = drive("plain", &[Ok(1), Ok(2)], None);
    assert_eq!(text, "plain");
    assert_eq!(taken, 0);
    assert_eq!(outcome, Ok(()));
}

#[test]
fn read_failure_stops_the_dump() {
    let (text, taken, outcome) = drive("%h ", &[Ok(10), Ok(11), Err("disk gone"), Ok(12)], None);
    assert_eq!(text, "a b ");
    assert_eq!(taken, 2);
    assert_eq!(outcome, Err(RenderError::ReadError("disk gone")));
}

#[test]
fn write_failure_stops_the_dump() {
    // The writes are "", "a", " ", "", "b", " ", ...: the sixth one fails.
    let (text, taken, outcome) = drive("%h ", &[Ok(10), Ok(11), Ok(12)], Some(5));
    assert_eq!(text, "a b");
    assert_eq!(taken, 2);
    assert_eq!(outcome, Err(RenderError::WriteError("sink closed")));
}

#[test]
fn write_failure_on_first_literal_reads_nothing() {
    let (text, taken, outcome) = drive("[%d]", &[Ok(1)], Some(0));
    assert_eq!(text, "");
    assert_eq!(taken, 0);
    assert_eq!(outcome, Err(RenderError::WriteError("sink closed")));
}

#[test]
fn renderer_steps_one_command_at_a_time() {
    let cmds = [FormatCmd::JustText("x="), FormatCmd::NextByte(ByteFmt::Hex)];
    let renderer = Renderer::new(&cmds);
    assert!(!renderer.is_finished());
    assert!(renderer.accepts(&Event::<()>::Ready));
    assert!(!renderer.accepts(&Event::<()>::Byte(1)));

    let (renderer, action) = renderer.step(Event::<()>::Ready);
    assert_eq!(action, Action::Write(Text::Literal("x=")));

    let (renderer, action) = renderer.step(Event::<()>::Ready);
    assert_eq!(action, Action::Read);
    assert!(renderer.accepts(&Event::<()>::Byte(0)));
    assert!(renderer.accepts(&Event::<()>::EndOfInput));
    assert!(renderer.accepts(&Event::ReadFailed(())));
    assert!(!renderer.accepts(&Event::<()>::Ready));
    assert!(!renderer.accepts(&Event::WriteFailed(())));

    let (renderer, action) = renderer.step(Event::<()>::Byte(254));
    assert_eq!(action, Action::Write(Text::Digits(String::from("fe"))));

    let (renderer, action) = renderer.step(Event::<()>::Ready);
    assert_eq!(action, Action::Write(Text::Literal("x=")));

    let (renderer, action) = renderer.step(Event::<()>::Ready);
    assert_eq!(action, Action::Read);

    let (renderer, action) = renderer.step(Event::<()>::EndOfInput);
    assert_eq!(action, Action::Finish(Ok(())));
    assert!(renderer.is_finished());
    assert!(!renderer.accepts(&Event::<()>::Ready));
    assert!(!renderer.accepts(&Event::<()>::EndOfInput));
}

#[test]
fn renderer_over_no_commands_finishes_at_once() {
    let renderer = Renderer::new(&[]);
    let (renderer, action) = renderer.step(Event::<()>::Ready);
    assert_eq!(action, Action::Finish(Ok(())));
    assert!(renderer.is_finished());
}

#[test]
fn renderer_without_directive_finishes_after_one_pass() {
    let cmds = [FormatCmd::JustText("a"), FormatCmd::JustText("b")];
    let renderer = Renderer::new(&cmds);
    let (renderer, action) = renderer.step(Event::<()>::Ready);
    assert_eq!(action, Action::Write(Text::Literal("a")));
    let (renderer, action) = renderer.step(Event::<()>::Ready);
    assert_eq!(action, Action::Write(Text::Literal("b")));
    let (renderer, action) = renderer.step(Event::<()>::Ready);
    assert_eq!(action, Action::Finish(Ok(())));
    assert!(renderer.is_finished());
}

#[test]
fn text_as_str_gives_the_text() {
    assert_eq!(Text::Literal("abc").as_str(), "abc");
    assert_eq!(Text::Digits(String::from("101")).as_str(), "101");
}

#[test]
fn has_directive_finds_directives() {
    assert!(!has_directive(&[]));
    assert!(!has_directive(&[FormatCmd::JustText("a"), FormatCmd::JustText("b")]));
    assert!(has_directive(&[FormatCmd::JustText("a"), FormatCmd::NextByte(ByteFmt::Bin)]));
    assert!(has_directive(&[FormatCmd::NextByte(ByteFmt::Dec)]));
}
