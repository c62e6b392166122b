use kite_gcs::control::{ack_step, param_id, reposition_next, result_name, result_to_err, AckEvent, AckResult, AckStep, RepositionStep, AUTOPILOT_COMPONENT};
use kite_gcs::video_commands::{copy_outcome, detached_size, engine_transport, pick_transcode, transcode_step, whep_answer, CopyOutcome, Transcode, TranscodeStep};

#[test]
fn only_accepted_is_success() {
    assert_eq!(result_to_err(AckResult::Accepted), Ok(()));
    assert_eq!(result_to_err(AckResult::TemporarilyRejected), Err("Command temporarily rejected — try again".to_string()));
    assert_eq!(result_to_err(AckResult::Denied), Err("Command denied by the flight controller".to_string()));
    assert_eq!(result_to_err(AckResult::Unsupported), Err("Command not supported by this firmware".to_string()));
    assert_eq!(result_to_err(AckResult::Failed), Err("Command failed on the flight controller".to_string()));
    assert_eq!(result_to_err(AckResult::Cancelled), Err("Command rejected: MAV_RESULT_CANCELLED".to_string()));
    assert_eq!(result_to_err(AckResult::InProgress), Err("Command rejected: MAV_RESULT_IN_PROGRESS".to_string()));
    assert_eq!(result_name(AckResult::CommandUnsupportedMavFrame), "MAV_RESULT_COMMAND_UNSUPPORTED_MAV_FRAME");
    assert_eq!(AUTOPILOT_COMPONENT, 1);
}

#[test]
fn ack_wait_ends_only_on_a_final_matching_ack() {
    let mine = 192;
    assert!(matches!(ack_step(mine, AckEvent::Ack { command: mine, result: AckResult::InProgress }), AckStep::Wait));
    assert!(matches!(ack_step(mine, AckEvent::Ack { command: 400, result: AckResult::Accepted }), AckStep::Wait));
    assert!(matches!(ack_step(mine, AckEvent::Other), AckStep::Wait));
    assert!(matches!(ack_step(mine, AckEvent::Ack { command: mine, result: AckResult::Denied }), AckStep::Done(Ok(AckResult::Denied))));
    assert!(matches!(ack_step(mine, AckEvent::TimedOut), AckStep::Done(Err(m)) if m == "No COMMAND_ACK from FC (timed out)"));
    assert!(matches!(ack_step(mine, AckEvent::Disconnected), AckStep::Done(Err(m)) if m == "MAVLink handler stopped"));
}

#[test]
fn reposition_retries_only_unsupported_with_a_known_offset() {
    assert!(matches!(reposition_next(AckResult::Unsupported, true), RepositionStep::RetryGlobal));
    assert!(matches!(reposition_next(AckResult::Unsupported, false), RepositionStep::Finish(Err(m)) if m == "Command not supported by this firmware"));
    assert!(matches!(reposition_next(AckResult::Accepted, true), RepositionStep::Finish(Ok(()))));
    assert!(matches!(reposition_next(AckResult::Denied, true), RepositionStep::Finish(Err(m)) if m == "Command denied by the flight controller"));
}

#[test]
fn param_id_is_cut_and_padded() {
    let id = param_id("WP_LOITER_RAD");
    assert_eq!(&id[..13], b"WP_LOITER_RAD");
    assert_eq!(&id[13..], &[0, 0, 0]);
    assert_eq!(param_id("ABCDEFGHIJKLMNOPQRST"), *b"ABCDEFGHIJKLMNOP");
    assert_eq!(param_id(""), [0u8; 16]);
}

#[test]
fn transport_and_whep_rules() {
    assert_eq!(engine_transport("udp"), "udp");
    assert_eq!(engine_transport("tcp"), "tcp");
    assert_eq!(engine_transport("auto"), "automatic");
    assert_eq!(engine_transport("UDP"), "automatic");
    assert_eq!(whep_answer(201, "201 Created", "v=0\r\n".to_string()), Ok("v=0\r\n".to_string()));
    assert_eq!(whep_answer(200, "200 OK", "  \n".to_string()), Err("WHEP answer is empty".to_string()));
    assert_eq!(
        whep_answer(400, "400 Bad Request", " no compatible codec \n".to_string()),
        Err("WHEP offer HTTP 400 Bad Request: no compatible codec".to_string())
    );
}

#[test]
fn whep_body_is_trimmed_of_unicode_white_space() {
    assert_eq!(whep_answer(200, "200 OK", " \n".to_string()), Err("WHEP answer is empty".to_string()));
    assert_eq!(whep_answer(200, "200 OK", "\t\u{a0}\u{3000}\r\n".to_string()), Err("WHEP answer is empty".to_string()));
    assert_eq!(whep_answer(200, "200 OK", "\u{a0}v=0\t".to_string()), Ok("\u{a0}v=0\t".to_string()));
    assert_eq!(
        whep_answer(503, "503 Service Unavailable", "\u{2003}busy\u{85}".to_string()),
        Err("WHEP offer HTTP 503 Service Unavailable: busy".to_string())
    );
}

#[test]
fn mjpeg_route_choice() {
    assert!(matches!(pick_transcode(Some(false), || panic!("not probed"), || panic!("not probed")), Transcode::Software));
    assert!(matches!(pick_transcode(None, || true, || panic!("not probed")), Transcode::V4l2m2m));
    assert!(matches!(pick_transcode(Some(true), || false, || Some("/dev/dri/renderD128".to_string())), Transcode::Vaapi(n) if n == "/dev/dri/renderD128"));
    assert!(matches!(pick_transcode(None, || false, || None), Transcode::Software));
    assert!(matches!(copy_outcome(Ok(8554), true), CopyOutcome::Serve(8554)));
    assert!(matches!(copy_outcome(Err("not mjpeg".to_string()), true), CopyOutcome::Fail(m) if m == "source does not carry MJPEG: not mjpeg"));
    assert!(matches!(copy_outcome(Err("not mjpeg".to_string()), false), CopyOutcome::Transcode));
    assert_eq!(detached_size(100, 90), (200, 120));
    assert_eq!(detached_size(1280, 720), (1280, 720));
}

#[test]
fn each_probe_is_asked_for_only_in_its_turn() {
    assert!(matches!(transcode_step(Some(false), None, None), TranscodeStep::Done(Transcode::Software)));
    assert!(matches!(transcode_step(None, None, None), TranscodeStep::ProbeV4l2));
    assert!(matches!(transcode_step(Some(true), Some(true), None), TranscodeStep::Done(Transcode::V4l2m2m)));
    assert!(matches!(transcode_step(None, Some(false), None), TranscodeStep::ProbeVaapi));
    assert!(matches!(
        transcode_step(None, Some(false), Some(Some("/dev/dri/renderD129".to_string()))),
        TranscodeStep::Done(Transcode::Vaapi(n)) if n == "/dev/dri/renderD129"
    ));
    assert!(matches!(transcode_step(None, Some(false), Some(None)), TranscodeStep::Done(Transcode::Software)));
}
