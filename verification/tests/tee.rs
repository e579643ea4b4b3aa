use stash::tee::{Tee, TeeAction, TeeEvent, TeePhase, NEWLINE};

/// What came out of a broadcaster that was driven to its end.
struct Outcome {
    terminal: Vec<u8>,
    log: Vec<u8>,
    units: Vec<Vec<u8>>,
    phase: TeePhase,
    log_open: bool,
}

/// Drives a broadcaster over `chunks`, then the end of the stream. The
/// terminal write number `fail_terminal` and the log write number `fail_log`
/// fail, counted from 0.
fn drive(chunks: &[&[u8]], fail_terminal: Option<usize>, fail_log: Option<usize>) -> Outcome {
    let mut tee = Tee::new();
    let mut out = Outcome {
        terminal: Vec::new(),
        log: Vec::new(),
        units: Vec::new(),
        phase: TeePhase::Reading,
        log_open: true,
    };
    let mut next_chunk = 0;
    let mut terminal_writes = 0;
    let mut log_writes = 0;
    let mut action = tee.awaited();
    loop {
        let event = match action {
            TeeAction::Read => {
                if next_chunk < chunks.len() {
                    next_chunk += 1;
                    TeeEvent::Data(chunks[next_chunk - 1].to_vec())
                } else {
                    TeeEvent::EndOfStream
                }
            }
            TeeAction::WriteTerminal(unit) => {
                terminal_writes += 1;
                if fail_terminal == Some(terminal_writes - 1) {
                    TeeEvent::WriteFailed
                } else {
                    out.terminal.extend_from_slice(&unit);
                    out.units.push(unit);
                    TeeEvent::Written
                }
            }
            TeeAction::WriteLog(unit) => {
                assert_eq!(out.units.last(), Some(&unit), "the log gets what the terminal got");
                log_writes += 1;
                if fail_log == Some(log_writes - 1) {
                    TeeEvent::WriteFailed
                } else {
                    out.log.extend_from_slice(&unit);
                    TeeEvent::Written
                }
            }
            TeeAction::Finish => break,
        };
        action = tee.step(event);
    }
    out.phase = tee.phase();
    out.log_open = tee.log_open();
    out
}

fn lines(list: &[&str]) -> Vec<Vec<u8>> {
    list.iter().map(|l| l.as_bytes().to_vec()).collect()
}

#[test]
fn newline_is_line_feed() {
    assert_eq!(NEWLINE, b'\n');
}

#[test]
fn a_new_broadcaster_waits_for_a_read() {
    let tee = Tee::new();
    assert_eq!(tee.phase(), TeePhase::Reading);
    assert!(tee.log_open());
    assert_eq!(tee.awaited(), TeeAction::Read);
}

#[test]
fn each_line_goes_to_the_terminal_and_then_to_the_log() {
    let mut tee = Tee::new();
    assert_eq!(
        tee.step(TeeEvent::Data(b"one\ntwo\n".to_vec())),
        TeeAction::WriteTerminal(b"one\n".to_vec())
    );
    assert_eq!(tee.phase(), TeePhase::Terminal);
    assert_eq!(tee.step(TeeEvent::Written), TeeAction::WriteLog(b"one\n".to_vec()));
    assert_eq!(tee.phase(), TeePhase::Log);
    assert_eq!(tee.step(TeeEvent::Written), TeeAction::WriteTerminal(b"two\n".to_vec()));
    assert_eq!(tee.step(TeeEvent::Written), TeeAction::WriteLog(b"two\n".to_vec()));
    assert_eq!(tee.step(TeeEvent::Written), TeeAction::Read);
    assert_eq!(tee.phase(), TeePhase::Reading);
    assert_eq!(tee.step(TeeEvent::EndOfStream), TeeAction::Finish);
    assert_eq!(tee.phase(), TeePhase::Done);
}

#[test]
fn a_line_is_held_back_until_its_newline_is_read() {
    let mut tee = Tee::new();
    assert_eq!(tee.step(TeeEvent::Data(b"hel".to_vec())), TeeAction::Read);
    assert_eq!(tee.step(TeeEvent::Data(Vec::new())), TeeAction::Read);
    assert_eq!(tee.step(TeeEvent::Data(b"lo".to_vec())), TeeAction::Read);
    assert_eq!(
        tee.step(TeeEvent::Data(b"\nwor".to_vec())),
        TeeAction::WriteTerminal(b"hello\n".to_vec())
    );
    assert_eq!(tee.step(TeeEvent::Written), TeeAction::WriteLog(b"hello\n".to_vec()));
    assert_eq!(tee.step(TeeEvent::Written), TeeAction::Read);
    assert_eq!(
        tee.step(TeeEvent::Data(b"ld\n".to_vec())),
        TeeAction::WriteTerminal(b"world\n".to_vec())
    );
}

#[test]
fn the_units_are_the_lines_with_their_newlines() {
    let out = drive(&[b"a\n\nbc\r\n\n", b"d"], None, None);
    assert_eq!(out.units, lines(&["a\n", "\n", "bc\r\n", "\n", "d"]));
}

#[test]
fn known_lines_reach_the_log_byte_for_byte() {
    let text = b"first line\nsecond line\n\nfourth, after an empty one\n";
    let out = drive(&[text], None, None);
    assert_eq!(out.log, text);
    assert_eq!(out.terminal, text);
    assert_eq!(out.phase, TeePhase::Done);
}

#[test]
fn the_cut_of_the_reads_does_not_show() {
    let text: &[u8] = b"alpha\nbeta\ngamma";
    let whole = drive(&[text], None, None);
    for cut in 0..=text.len() {
        let out = drive(&[&text[..cut], &text[cut..]], None, None);
        assert_eq!(out.units, whole.units, "cut at {}", cut);
        assert_eq!(out.log, text);
        assert_eq!(out.terminal, text);
    }
    let bytes: Vec<&[u8]> = text.chunks(1).collect();
    assert_eq!(drive(&bytes, None, None).units, whole.units);
}

#[test]
fn bytes_that_are_no_text_pass_unchanged() {
    let data: &[u8] = &[0xff, 0x00, 0x0a, 0xc3, 0x28, 0x0a, 0x80];
    let out = drive(&[data], None, None);
    assert_eq!(out.log, data);
    assert_eq!(out.terminal, data);
    assert_eq!(out.units, vec![vec![0xff, 0x00, 0x0a], vec![0xc3, 0x28, 0x0a], vec![0x80]]);
}

#[test]
fn output_before_an_immediate_end_is_not_lost() {
    let mut tee = Tee::new();
    assert_eq!(tee.step(TeeEvent::Data(b"bye".to_vec())), TeeAction::Read);
    assert_eq!(tee.step(TeeEvent::EndOfStream), TeeAction::WriteTerminal(b"bye".to_vec()));
    assert_eq!(tee.step(TeeEvent::Written), TeeAction::WriteLog(b"bye".to_vec()));
    assert_eq!(tee.step(TeeEvent::Written), TeeAction::Finish);
    assert_eq!(tee.phase(), TeePhase::Done);

    let out = drive(&[b"done\nand a tail without newline"], None, None);
    assert_eq!(out.terminal, b"done\nand a tail without newline");
    assert_eq!(out.log, b"done\nand a tail without newline");
}

#[test]
fn an_empty_stream_writes_nothing() {
    let out = drive(&[], None, None);
    assert!(out.units.is_empty());
    assert!(out.log.is_empty());
    assert_eq!(out.phase, TeePhase::Done);
    let mut tee = Tee::new();
    assert_eq!(tee.step(TeeEvent::EndOfStream), TeeAction::Finish);
}

#[test]
fn a_failed_read_stops_the_broadcaster() {
    let mut tee = Tee::new();
    assert_eq!(tee.step(TeeEvent::Data(b"kept\npart".to_vec())), TeeAction::WriteTerminal(b"kept\n".to_vec()));
    assert_eq!(tee.step(TeeEvent::Written), TeeAction::WriteLog(b"kept\n".to_vec()));
    assert_eq!(tee.step(TeeEvent::Written), TeeAction::Read);
    assert_eq!(tee.step(TeeEvent::ReadFailed), TeeAction::Finish);
    assert_eq!(tee.phase(), TeePhase::Stopped);
    assert_eq!(tee.step(TeeEvent::Data(b"more\n".to_vec())), TeeAction::Finish);
    assert_eq!(tee.step(TeeEvent::EndOfStream), TeeAction::Finish);
    assert_eq!(tee.phase(), TeePhase::Stopped);
}

#[test]
fn a_failed_terminal_write_stops_the_broadcaster() {
    let out = drive(&[b"a\nb\nc\n"], Some(1), None);
    assert_eq!(out.terminal, b"a\n");
    assert_eq!(out.log, b"a\n");
    assert_eq!(out.phase, TeePhase::Stopped);
}

#[test]
fn a_failed_log_write_leaves_the_terminal_flowing() {
    let out = drive(&[b"a\nb\nc\n", b"d"], None, Some(1));
    assert_eq!(out.terminal, b"a\nb\nc\nd");
    assert_eq!(out.log, b"a\n");
    assert_eq!(out.phase, TeePhase::Done);
    assert!(!out.log_open);

    let mut tee = Tee::new();
    assert_eq!(tee.step(TeeEvent::Data(b"x\ny\n".to_vec())), TeeAction::WriteTerminal(b"x\n".to_vec()));
    assert_eq!(tee.step(TeeEvent::Written), TeeAction::WriteLog(b"x\n".to_vec()));
    assert_eq!(tee.step(TeeEvent::WriteFailed), TeeAction::WriteTerminal(b"y\n".to_vec()));
    assert!(!tee.log_open());
    assert_eq!(tee.step(TeeEvent::Written), TeeAction::Read);
}

#[test]
fn a_report_that_is_not_awaited_changes_nothing() {
    let mut tee = Tee::new();
    assert_eq!(tee.step(TeeEvent::Written), TeeAction::Read);
    assert_eq!(tee.step(TeeEvent::WriteFailed), TeeAction::Read);
    assert_eq!(tee.phase(), TeePhase::Reading);
    assert_eq!(tee.step(TeeEvent::Data(b"x\n".to_vec())), TeeAction::WriteTerminal(b"x\n".to_vec()));
    assert_eq!(tee.step(TeeEvent::Data(b"lost\n".to_vec())), TeeAction::WriteTerminal(b"x\n".to_vec()));
    assert_eq!(tee.step(TeeEvent::EndOfStream), TeeAction::WriteTerminal(b"x\n".to_vec()));
    assert_eq!(tee.step(TeeEvent::ReadFailed), TeeAction::WriteTerminal(b"x\n".to_vec()));
    assert_eq!(tee.step(TeeEvent::Written), TeeAction::WriteLog(b"x\n".to_vec()));
    assert_eq!(tee.step(TeeEvent::EndOfStream), TeeAction::WriteLog(b"x\n".to_vec()));
    assert_eq!(tee.step(TeeEvent::Written), TeeAction::Read);
    assert_eq!(tee.step(TeeEvent::EndOfStream), TeeAction::Finish);
    assert_eq!(tee.step(TeeEvent::Written), TeeAction::Finish);
    assert_eq!(tee.phase(), TeePhase::Done);
}

#[test]
fn two_streams_in_one_log_keep_their_own_order() {
    let mut out_lines = Vec::new();
    let mut err_lines = Vec::new();
    let mut out_stream = Vec::new();
    let mut err_stream = Vec::new();
    for n in 0..1000 {
        out_lines.push(format!("out {}\n", n).into_bytes());
        err_lines.push(format!("err {}\n", n).into_bytes());
        out_stream.extend_from_slice(&out_lines[n]);
        err_stream.extend_from_slice(&err_lines[n]);
    }
    // Both broadcasters append to one log; each append is tagged with its
    // stream. The reads cut the streams at odd places, and the two take
    // turns in an uneven rhythm.
    let mut log: Vec<(bool, Vec<u8>)> = Vec::new();
    let mut tees = [Tee::new(), Tee::new()];
    let mut actions = [tees[0].awaited(), tees[1].awaited()];
    let streams = [out_stream, err_stream];
    let sizes = [7usize, 13usize];
    let mut read = [0usize, 0usize];
    let mut turn = 0usize;
    while actions[0] != TeeAction::Finish || actions[1] != TeeAction::Finish {
        let who = if turn % 5 < 3 { 0 } else { 1 };
        turn += 1;
        let event = match &actions[who] {
            TeeAction::Read => {
                if read[who] < streams[who].len() {
                    let end = (read[who] + sizes[who]).min(streams[who].len());
                    let chunk = streams[who][read[who]..end].to_vec();
                    read[who] = end;
                    TeeEvent::Data(chunk)
                } else {
                    TeeEvent::EndOfStream
                }
            }
            TeeAction::WriteTerminal(_) => TeeEvent::Written,
            TeeAction::WriteLog(unit) => {
                log.push((who == 1, unit.clone()));
                TeeEvent::Written
            }
            TeeAction::Finish => continue,
        };
        actions[who] = tees[who].step(event);
    }
    let from_out: Vec<Vec<u8>> = log.iter().filter(|e| !e.0).map(|e| e.1.clone()).collect();
    let from_err: Vec<Vec<u8>> = log.iter().filter(|e| e.0).map(|e| e.1.clone()).collect();
    assert_eq!(from_out, out_lines);
    assert_eq!(from_err, err_lines);
    assert_eq!(log.len(), 2000);
}
