//! The texts shown to the user.

use vstd::prelude::*;
#[allow(unused_imports)]
use vstd::string::*;

use crate::scanner::BestSignal;
use crate::text::{integer, natural, push_integer, push_natural};

verus! {

/// Name of the file that exports are written to.
pub const EXPORT_FILENAME: &'static str = "wifi_scan_export.csv";

/// A number under a label.
pub fn metric_text(label: &str, value: usize) -> (text: String)
    ensures
        text@ == label@ + ": "@ + natural(value as nat),
{
    let mut text: String = label.to_owned();
    text.append(": ");
    push_natural(&mut text, value as u64);
    text
}

/// The network with the strongest signal.
pub fn best_signal_text(best: &BestSignal) -> (text: String)
    ensures
        text@ == "Best: "@ + best.ssid@ + " ("@ + integer(best.signal_level as int) + " dBm)"@,
{
    let mut text: String = "Best: ".to_owned();
    text.append(best.ssid.as_str());
    text.append(" (");
    push_integer(&mut text, best.signal_level as i64);
    text.append(" dBm)");
    text
}

/// The name of a channel.
pub fn channel_text(channel: u32) -> (text: String)
    ensures
        text@ == "Ch "@ + natural(channel as nat),
{
    let mut text: String = "Ch ".to_owned();
    push_natural(&mut text, channel as u64);
    text
}

/// The SSID of the point under the pointer.
pub fn hovered_ssid_text(ssid: &str) -> (text: String)
    ensures
        text@ == "SSID: "@ + ssid@,
{
    let mut text: String = "SSID: ".to_owned();
    text.append(ssid);
    text
}

/// The signal of the point under the pointer.
pub fn hovered_signal_text(signal_level: i32) -> (text: String)
    ensures
        text@ == "Signal: "@ + integer(signal_level as int) + " dBm"@,
{
    let mut text: String = "Signal: ".to_owned();
    push_integer(&mut text, signal_level as i64);
    text.append(" dBm");
    text
}

/// How an export went: where it is, or why it failed.
pub open spec fn export_text(outcome: Result<(), Seq<char>>) -> Seq<char> {
    match outcome {
        Ok(_) => "Exported to "@ + EXPORT_FILENAME@,
        Err(reason) => "Export failed: "@ + reason,
    }
}

/// How an export went, with the reason as a character sequence.
pub open spec fn outcome_view(outcome: Result<(), String>) -> Result<(), Seq<char>> {
    match outcome {
        Ok(_) => Ok(()),
        Err(reason) => Err(reason@),
    }
}

/// Say how an export went.
pub fn export_status(outcome: Result<(), String>) -> (text: String)
    ensures
        text@ == export_text(outcome_view(outcome)),
        outcome is Ok ==> text@ == "Exported to "@ + "wifi_scan_export.csv"@,
        outcome matches Err(reason) ==> text@ == "Export failed: "@ + reason@,
{
    match outcome {
        Ok(_) => {
            let mut text: String = "Exported to ".to_owned();
            text.append(EXPORT_FILENAME);
            text
        },
        Err(reason) => {
            let mut text: String = "Export failed: ".to_owned();
            text.append(reason.as_str());
            text
        },
    }
}

/// A successful export names its file, and a failed one gives its reason.
pub proof fn law_export_text_tells_the_outcome(outcome: Result<(), String>, reason: Seq<char>)
    ensures
        export_text(Ok(())) == "Exported to "@ + "wifi_scan_export.csv"@,
        export_text(Err(reason)) == "Export failed: "@ + reason,
        outcome is Ok <==> outcome_view(outcome) is Ok,
        outcome matches Err(held) ==> outcome_view(outcome) == Err::<(), Seq<char>>(held@),
{
}

} // verus!
