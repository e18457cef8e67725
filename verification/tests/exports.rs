use wifi_scanner::csv::{csv_escape, push_row};
use wifi_scanner::sample::WifiSample;

/// A reader of comma-separated text, for checking what is written.
fn read(text: &str) -> Vec<Vec<String>> {
    let chars: Vec<char> = text.chars().collect();
    let mut records = Vec::new();
    let mut record = Vec::new();
    let mut field = String::new();
    let mut quoted = false;
    let mut i = 0;
    while i < chars.len() {
        let c = chars[i];
        if quoted {
            if c == '"' && i + 1 < chars.len() && chars[i + 1] == '"' {
                field.push('"');
                i += 1;
            } else if c == '"' {
                quoted = false;
            } else {
                field.push(c);
            }
        } else if c == '"' {
            quoted = true;
        } else if c == ',' || c == '\n' {
            record.push(field.clone());
            field.clear();
            if c == '\n' {
                records.push(record.clone());
                record.clear();
            }
        } else {
            field.push(c);
        }
        i += 1;
    }
    records
}

#[test]
fn plain_values_are_written_as_they_are() {
    assert_eq!(csv_escape("home"), "home");
    assert_eq!(csv_escape(""), "");
    assert_eq!(csv_escape("caf\u{e9} 5G"), "caf\u{e9} 5G");
}

#[test]
fn special_values_are_quoted() {
    assert_eq!(csv_escape("a,b"), "\"a,b\"");
    assert_eq!(csv_escape("a\nb"), "\"a\nb\"");
    assert_eq!(csv_escape("a\rb"), "\"a\rb\"");
    assert_eq!(csv_escape("\""), "\"\"\"\"");
    assert_eq!(csv_escape("say \"hi\""), "\"say \"\"hi\"\"\"");
}

#[test]
fn rows_read_back() {
    let names = ["home", "", "a,b", "\"", "x\r\ny", "\"\",\"\"", "caf\u{e9}, \"5G\"\n"];
    for ssid in names {
        for bssid in names {
            let mut text = String::new();
            push_row(
                &mut text,
                "17.25",
                &WifiSample {
                    ssid: ssid.to_string(),
                    signal_level: -42,
                    bssid: bssid.to_string(),
                    channel: 149,
                    frequency: 5745,
                },
            );
            assert_eq!(read(&text), vec![vec!["17.25", ssid, "-42", bssid, "149", "5745"]]);
        }
    }
}
