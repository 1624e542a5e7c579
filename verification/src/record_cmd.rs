//! What the client shows of a recording on the server.
use crate::hexadecimal::{encode, hex_text};
use vstd::prelude::*;
use vstd::string::StringExecFns;

verus! {

/// A message for the log and lines for the user.
#[derive(Debug)]
pub struct Report {
    pub log: String,
    pub lines: Vec<String>,
}

/// The model of a report.
pub struct Message {
    pub log: Seq<char>,
    pub lines: Seq<Seq<char>>,
}

impl View for Report {
    type V = Message;

    open spec fn view(&self) -> Message {
        Message { log: self.log@, lines: self.lines@.map_values(|line: String| line@) }
    }
}

/// What is shown when the server acknowledges a command.
pub open spec fn ack_message(session_id: Seq<u8>, status: Seq<char>) -> Message {
    if status == "started"@ {
        Message {
            log: "📹 Recording started (session: "@ + hex_text(session_id.take(4)) + "...)"@,
            lines: seq![
                "Recording started. Use the service normally."@,
                "Run 'aivpn record stop' when done."@,
            ],
        }
    } else if status == "analyzing"@ {
        Message {
            log: "🔍 Recording stopped, server analyzing..."@,
            lines: seq!["Recording stopped. Server is analyzing traffic..."@],
        }
    } else {
        Message {
            log: "Recording status: "@ + status,
            lines: seq!["Recording status: "@ + status],
        }
    }
}

/// What is shown when a mask was generated; `confidence` is the printed number.
pub open spec fn complete_message(
    service: Seq<char>,
    mask_id: Seq<char>,
    confidence: Seq<char>,
) -> Message {
    Message {
        log: "✅ Mask generated for '"@ + service + "'"@,
        lines: seq![
            ""@,
            "✅ Mask generated and tested!"@,
            ""@,
            "   Mask ID:     "@ + mask_id,
            "   Service:     "@ + service,
            "   Confidence:  "@ + confidence,
            ""@,
            "   Broadcasting to all clients..."@,
        ],
    }
}

/// What is shown when no mask could be generated.
pub open spec fn failed_message(reason: Seq<char>) -> Message {
    Message {
        log: "❌ Recording failed: "@ + reason,
        lines: seq![
            ""@,
            "❌ Recording failed!"@,
            "   Reason: "@ + reason,
            ""@,
            "   Tips:"@,
            "   - Use the service for at least 1 minute"@,
            "   - Ensure active traffic (not idle)"@,
            "   - Need at least 500 packets captured"@,
        ],
    }
}

/// The report on an acknowledgement from the server.
pub fn handle_recording_ack(session_id: &[u8; 16], status: &str) -> (r: Report)
    ensures
        r@ == ack_message(session_id@, status@),
{
    let text: String = status.to_owned();
    let r = if text == "started".to_owned() {
        let first: [u8; 4] = [session_id[0], session_id[1], session_id[2], session_id[3]];
        assert(first@ =~= session_id@.take(4));
        let digits = encode(first.as_slice());
        Report {
            log: "📹 Recording started (session: ".to_owned().concat(digits.as_str()).concat("...)"),
            lines: vec![
                "Recording started. Use the service normally.".to_owned(),
                "Run 'aivpn record stop' when done.".to_owned(),
            ],
        }
    } else if text == "analyzing".to_owned() {
        Report {
            log: "🔍 Recording stopped, server analyzing...".to_owned(),
            lines: vec!["Recording stopped. Server is analyzing traffic...".to_owned()],
        }
    } else {
        Report {
            log: "Recording status: ".to_owned().concat(status),
            lines: vec!["Recording status: ".to_owned().concat(status)],
        }
    };
    assert(r@.lines =~= ack_message(session_id@, status@).lines);
    r
}

/// The report on a mask that was generated.
pub fn handle_recording_complete(service: &str, mask_id: &str, confidence: &str) -> (r: Report)
    ensures
        r@ == complete_message(service@, mask_id@, confidence@),
{
    let r = Report {
        log: "✅ Mask generated for '".to_owned().concat(service).concat("'"),
        lines: vec![
            "".to_owned(),
            "✅ Mask generated and tested!".to_owned(),
            "".to_owned(),
            "   Mask ID:     ".to_owned().concat(mask_id),
            "   Service:     ".to_owned().concat(service),
            "   Confidence:  ".to_owned().concat(confidence),
            "".to_owned(),
            "   Broadcasting to all clients...".to_owned(),
        ],
    };
    assert(r@.lines =~= complete_message(service@, mask_id@, confidence@).lines);
    r
}

/// The report on a recording that gave no mask.
pub fn handle_recording_failed(reason: &str) -> (r: Report)
    ensures
        r@ == failed_message(reason@),
{
    let r = Report {
        log: "❌ Recording failed: ".to_owned().concat(reason),
        lines: vec![
            "".to_owned(),
            "❌ Recording failed!".to_owned(),
            "   Reason: ".to_owned().concat(reason),
            "".to_owned(),
            "   Tips:".to_owned(),
            "   - Use the service for at least 1 minute".to_owned(),
            "   - Ensure active traffic (not idle)".to_owned(),
            "   - Need at least 500 packets captured".to_owned(),
        ],
    };
    assert(r@.lines =~= failed_message(reason@).lines);
    r
}

/// A recording that has started is shown with the first four bytes of its session, and one that
/// has stopped with the analysis that follows; any other status is shown as it is, to the user
/// and in the log.
pub proof fn law_status_is_shown(session_id: Seq<u8>, status: Seq<char>)
    ensures
        status == "started"@ ==> ack_message(session_id, status).log
            == "📹 Recording started (session: "@ + hex_text(session_id.take(4)) + "...)"@
            && ack_message(session_id, status).lines == seq![
            "Recording started. Use the service normally."@,
            "Run 'aivpn record stop' when done."@,
        ],
        status != "started"@ && status == "analyzing"@ ==> ack_message(session_id, status).log
            == "🔍 Recording stopped, server analyzing..."@ && ack_message(
            session_id,
            status,
        ).lines == seq!["Recording stopped. Server is analyzing traffic..."@],
        status != "started"@ && status != "analyzing"@ ==> ack_message(session_id, status).log
            == "Recording status: "@ + status && ack_message(session_id, status).lines == seq![
            "Recording status: "@ + status,
        ],
{
}

/// The outcome of a recording names what there is to know: the mask, the service and the
/// confidence where a mask was generated, the reason where none was.
pub proof fn law_outcome_is_shown(
    service: Seq<char>,
    mask_id: Seq<char>,
    confidence: Seq<char>,
    reason: Seq<char>,
)
    ensures
        complete_message(service, mask_id, confidence).log == "✅ Mask generated for '"@ + service
            + "'"@,
        complete_message(service, mask_id, confidence).lines[3] == "   Mask ID:     "@ + mask_id,
        complete_message(service, mask_id, confidence).lines[4] == "   Service:     "@ + service,
        complete_message(service, mask_id, confidence).lines[5] == "   Confidence:  "@ + confidence,
        failed_message(reason).log == "❌ Recording failed: "@ + reason,
        failed_message(reason).lines[2] == "   Reason: "@ + reason,
{
}

} // verus!
