//! Comma-separated text: writing fields and rows, and what a reader makes of them.

use vstd::prelude::*;
#[allow(unused_imports)]
use vstd::string::*;

use crate::sample::{
    sample_views, snapshot_views, SampleView, ScanSnapshot, SnapshotView, WifiSample,
};
use crate::text::{integer, natural, push_integer, push_natural, to_chars};

verus! {

// Fields.

/// A character that a field can hold only between quotes.
pub open spec fn is_special(c: char) -> bool {
    c == ',' || c == '"' || c == '\n' || c == '\r'
}

/// The field holds no special character.
pub open spec fn is_plain(value: Seq<char>) -> bool {
    forall|i: int| 0 <= i < value.len() ==> !is_special(#[trigger] value[i])
}

/// The value with each quote doubled.
pub open spec fn quotes_doubled(value: Seq<char>) -> Seq<char>
    decreases value.len(),
{
    if value.len() == 0 {
        Seq::empty()
    } else {
        let earlier = quotes_doubled(value.drop_last());
        if value.last() == '"' {
            earlier.push('"').push('"')
        } else {
            earlier.push(value.last())
        }
    }
}

/// A value as a field: as it is, or between quotes, its own quotes doubled, if it holds a
/// special character.
pub open spec fn escaped(value: Seq<char>) -> Seq<char> {
    if is_plain(value) {
        value
    } else {
        seq!['"'] + quotes_doubled(value) + seq!['"']
    }
}

/// Write a value as a CSV field.
pub fn csv_escape(value: &str) -> (field: String)
    ensures
        field@ == escaped(value@),
{
    let chars: Vec<char> = to_chars(value);
    let mut special: bool = false;
    let mut i: usize = 0;
    while i < chars.len()
        invariant
            i <= chars@.len(),
            special == !is_plain(chars@.take(i as int)),
        decreases chars@.len() - i,
    {
        let c: char = chars[i];
        proof {
            let seen = chars@.take(i as int);
            let now = chars@.take(i + 1);
            assert(now[i as int] == c);
            assert forall|k: int| 0 <= k < i implies seen[k] == now[k] by {}
            if special {
                let k = choose|k: int| 0 <= k < seen.len() && is_special(#[trigger] seen[k]);
                assert(is_special(now[k]));
            } else {
                assert forall|k: int| 0 <= k < now.len() && k < i implies !is_special(
                    #[trigger] now[k],
                ) by {
                    assert(!is_special(seen[k]));
                }
            }
        }
        if c == ',' || c == '"' || c == '\n' || c == '\r' {
            special = true;
        }
        i += 1;
    }
    assert(chars@.take(i as int) =~= chars@);
    if !special {
        return value.to_owned();
    }
    let mut field: String = String::new();
    field.push('"');
    i = 0;
    while i < chars.len()
        invariant
            i <= chars@.len(),
            field@ == seq!['"'] + quotes_doubled(chars@.take(i as int)),
        decreases chars@.len() - i,
    {
        assert(chars@.take(i + 1).drop_last() =~= chars@.take(i as int));
        let ghost before = field@;
        if chars[i] == '"' {
            field.push('"');
        }
        field.push(chars[i]);
        i += 1;
        assert(field@ =~= seq!['"'] + quotes_doubled(chars@.take(i as int)));
    }
    assert(chars@.take(i as int) =~= chars@);
    field.push('"');
    assert(field@ =~= escaped(value@));
    field
}

// Rows.

/// The first line of an export.
pub open spec fn header() -> Seq<char> {
    "timestamp,ssid,signal,bssid,channel,frequency\n"@
}

/// The line of one sample, taken at the time that `stamp` tells.
pub open spec fn row(stamp: Seq<char>, sample: SampleView) -> Seq<char> {
    stamp + seq![','] + escaped(sample.ssid) + seq![','] + integer(sample.signal_level as int)
        + seq![','] + escaped(sample.bssid) + seq![','] + natural(sample.channel as nat) + seq![',']
        + natural(sample.frequency as nat) + seq!['\n']
}

/// The lines of samples taken at the time that `stamp` tells.
pub open spec fn rows(stamp: Seq<char>, data: Seq<SampleView>) -> Seq<char>
    decreases data.len(),
{
    if data.len() == 0 {
        Seq::empty()
    } else {
        rows(stamp, data.drop_last()) + row(stamp, data.last())
    }
}

/// The lines of snapshots, each with its own stamp.
pub open spec fn snapshot_rows(stamps: Seq<Seq<char>>, snapshots: Seq<SnapshotView>) -> Seq<char>
    decreases snapshots.len(),
{
    if snapshots.len() == 0 {
        Seq::empty()
    } else {
        let last = snapshots.len() - 1;
        snapshot_rows(stamps, snapshots.drop_last()) + rows(stamps[last], snapshots[last].data)
    }
}

/// The whole export: the header and a line for each sample.
pub open spec fn document(stamps: Seq<Seq<char>>, snapshots: Seq<SnapshotView>) -> Seq<char> {
    header() + snapshot_rows(stamps, snapshots)
}

/// The texts of a sequence of strings.
pub open spec fn string_views(strings: Seq<String>) -> Seq<Seq<char>> {
    strings.map_values(|text: String| text@)
}

/// Append the line of one sample.
pub fn push_row(text: &mut String, stamp: &str, sample: &WifiSample)
    ensures
        final(text)@ == old(text)@ + row(stamp@, sample@),
{
    let ghost before = text@;
    text.append(stamp);
    text.push(',');
    text.append(csv_escape(sample.ssid.as_str()).as_str());
    text.push(',');
    push_integer(text, sample.signal_level as i64);
    text.push(',');
    text.append(csv_escape(sample.bssid.as_str()).as_str());
    text.push(',');
    push_natural(text, sample.channel as u64);
    text.push(',');
    push_natural(text, sample.frequency as u64);
    text.push('\n');
    assert(text@ =~= before + row(stamp@, sample@));
}

/// Write snapshots as CSV. `stamps` holds the text of the timestamp of each snapshot.
pub fn csv_document(stamps: &Vec<String>, snapshots: &Vec<ScanSnapshot>) -> (text: String)
    requires
        stamps@.len() == snapshots@.len(),
    ensures
        text@ == document(string_views(stamps@), snapshot_views(snapshots@)),
{
    let ghost names = string_views(stamps@);
    let ghost views = snapshot_views(snapshots@);
    let mut text: String = "timestamp,ssid,signal,bssid,channel,frequency\n".to_owned();
    let mut i: usize = 0;
    assert(text@ =~= header() + snapshot_rows(names, views.take(0)));
    while i < snapshots.len()
        invariant
            i <= snapshots@.len(),
            stamps@.len() == snapshots@.len(),
            names == string_views(stamps@),
            views == snapshot_views(snapshots@),
            text@ == header() + snapshot_rows(names, views.take(i as int)),
        decreases snapshots@.len() - i,
    {
        let stamp: &str = stamps[i].as_str();
        let data: &Vec<WifiSample> = &snapshots[i].data;
        let ghost samples = sample_views(data@);
        let ghost before = text@;
        let mut j: usize = 0;
        assert(text@ =~= before + rows(stamp@, samples.take(0)));
        while j < data.len()
            invariant
                j <= data@.len(),
                samples == sample_views(data@),
                text@ == before + rows(stamp@, samples.take(j as int)),
            decreases data@.len() - j,
        {
            push_row(&mut text, stamp, &data[j]);
            assert(samples.take(j + 1).drop_last() =~= samples.take(j as int));
            assert(samples[j as int] == data@[j as int]@);
            j += 1;
            assert(text@ =~= before + rows(stamp@, samples.take(j as int)));
        }
        proof {
            assert(samples.take(j as int) =~= samples);
            assert(views[i as int] == snapshots@[i as int]@);
            assert(names[i as int] == stamp@);
            assert(views.take(i + 1).drop_last() =~= views.take(i as int));
        }
        i += 1;
        assert(text@ =~= header() + snapshot_rows(names, views.take(i as int)));
    }
    assert(views.take(i as int) =~= views);
    text
}

// Reading.

/// The rest of a field that stands between quotes, after the opening quote, and what
/// follows the closing one.
pub open spec fn read_quoted(text: Seq<char>) -> (Seq<char>, Seq<char>)
    decreases text.len(),
{
    if text.len() == 0 {
        (Seq::empty(), Seq::empty())
    } else if text[0] != '"' {
        let (value, rest) = read_quoted(text.skip(1));
        (seq![text[0]] + value, rest)
    } else if text.len() > 1 && text[1] == '"' {
        let (value, rest) = read_quoted(text.skip(2));
        (seq!['"'] + value, rest)
    } else {
        (Seq::empty(), text.skip(1))
    }
}

/// A field up to the next comma or line end, and what follows from there.
pub open spec fn read_bare(text: Seq<char>) -> (Seq<char>, Seq<char>)
    decreases text.len(),
{
    if text.len() == 0 || text[0] == ',' || text[0] == '\n' {
        (Seq::empty(), text)
    } else {
        let (value, rest) = read_bare(text.skip(1));
        (seq![text[0]] + value, rest)
    }
}

/// The value of the first field of a text, and what follows the field.
pub open spec fn read_field(text: Seq<char>) -> (Seq<char>, Seq<char>) {
    if text.len() > 0 && text[0] == '"' {
        read_quoted(text.skip(1))
    } else {
        read_bare(text)
    }
}

/// The values of the first line of a text, and what follows the line.
pub open spec fn read_record(text: Seq<char>) -> (Seq<Seq<char>>, Seq<char>)
    decreases text.len(),
    via read_record_terminates
{
    let (value, rest) = read_field(text);
    if rest.len() > 0 && rest[0] == ',' {
        let (values, after) = read_record(rest.skip(1));
        (seq![value] + values, after)
    } else if rest.len() > 0 {
        (seq![value], rest.skip(1))
    } else {
        (seq![value], rest)
    }
}

/// The values of all lines of a text.
pub open spec fn read_document(text: Seq<char>) -> Seq<Seq<Seq<char>>>
    decreases text.len(),
    via read_document_terminates
{
    if text.len() == 0 {
        Seq::empty()
    } else {
        let (values, rest) = read_record(text);
        seq![values] + read_document(rest)
    }
}

proof fn lemma_read_quoted_shrinks(text: Seq<char>)
    ensures
        read_quoted(text).1.len() <= text.len(),
    decreases text.len(),
{
    if text.len() > 0 {
        lemma_read_quoted_shrinks(text.skip(1));
        if text.len() > 1 {
            lemma_read_quoted_shrinks(text.skip(2));
        }
    }
}

proof fn lemma_read_bare_shrinks(text: Seq<char>)
    ensures
        read_bare(text).1.len() <= text.len(),
    decreases text.len(),
{
    if text.len() > 0 {
        lemma_read_bare_shrinks(text.skip(1));
    }
}

proof fn lemma_read_field_shrinks(text: Seq<char>)
    ensures
        read_field(text).1.len() <= text.len(),
        text.len() > 0 && text[0] == '"' ==> read_field(text).1.len() < text.len(),
{
    if text.len() > 0 && text[0] == '"' {
        lemma_read_quoted_shrinks(text.skip(1));
    } else {
        lemma_read_bare_shrinks(text);
    }
}

#[via_fn]
proof fn read_record_terminates(text: Seq<char>) {
    lemma_read_field_shrinks(text);
}

proof fn lemma_read_record_shrinks(text: Seq<char>)
    ensures
        read_record(text).1.len() <= text.len(),
        text.len() > 0 ==> read_record(text).1.len() < text.len(),
    decreases text.len(),
{
    lemma_read_field_shrinks(text);
    let rest = read_field(text).1;
    if rest.len() > 0 && rest[0] == ',' {
        lemma_read_record_shrinks(rest.skip(1));
    }
}

#[via_fn]
proof fn read_document_terminates(text: Seq<char>) {
    lemma_read_record_shrinks(text);
}

// Laws: what is written can be read back.

/// A comma or a line end comes next, or nothing at all.
pub open spec fn ends_field(rest: Seq<char>) -> bool {
    rest.len() == 0 || rest[0] == ',' || rest[0] == '\n'
}

proof fn lemma_quotes_doubled_front(value: Seq<char>)
    requires
        value.len() > 0,
    ensures
        quotes_doubled(value) == (if value[0] == '"' {
            seq!['"', '"']
        } else {
            seq![value[0]]
        }) + quotes_doubled(value.skip(1)),
    decreases value.len(),
{
    if value.len() == 1 {
        assert(value.skip(1) =~= Seq::empty());
        assert(value.drop_last() =~= Seq::empty());
        assert(quotes_doubled(value.drop_last()) =~= Seq::empty());
        assert(quotes_doubled(value) =~= (if value[0] == '"' {
            seq!['"', '"']
        } else {
            seq![value[0]]
        }) + quotes_doubled(value.skip(1)));
    } else {
        lemma_quotes_doubled_front(value.drop_last());
        assert(value.skip(1).drop_last() =~= value.drop_last().skip(1));
        assert(quotes_doubled(value) =~= (if value[0] == '"' {
            seq!['"', '"']
        } else {
            seq![value[0]]
        }) + quotes_doubled(value.skip(1)));
    }
}

proof fn lemma_read_quoted(value: Seq<char>, rest: Seq<char>)
    requires
        ends_field(rest),
    ensures
        read_quoted(quotes_doubled(value) + seq!['"'] + rest) == (value, rest),
    decreases value.len(),
{
    let text = quotes_doubled(value) + seq!['"'] + rest;
    if value.len() == 0 {
        assert(text =~= seq!['"'] + rest);
        assert(text.skip(1) =~= rest);
        assert(value =~= Seq::empty());
    } else {
        let tail = value.skip(1);
        lemma_quotes_doubled_front(value);
        lemma_read_quoted(tail, rest);
        let after = quotes_doubled(tail) + seq!['"'] + rest;
        if value[0] == '"' {
            assert(text =~= seq!['"', '"'] + after);
            assert(text.skip(2) =~= after);
        } else {
            assert(text =~= seq![value[0]] + after);
            assert(text.skip(1) =~= after);
        }
        assert(value =~= seq![value[0]] + tail);
    }
}

proof fn lemma_read_bare(value: Seq<char>, rest: Seq<char>)
    requires
        ends_field(rest),
        is_plain(value),
    ensures
        read_bare(value + rest) == (value, rest),
    decreases value.len(),
{
    if value.len() == 0 {
        assert(value + rest =~= rest);
        assert(value =~= Seq::empty());
    } else {
        let tail = value.skip(1);
        assert(!is_special(value[0]));
        assert forall|i: int| 0 <= i < tail.len() implies !is_special(#[trigger] tail[i]) by {
            assert(tail[i] == value[i + 1]);
        }
        lemma_read_bare(tail, rest);
        assert((value + rest).skip(1) =~= tail + rest);
        assert(value =~= seq![value[0]] + tail);
    }
}

/// Any value, written as a field, is read back unchanged, whatever follows the field.
pub proof fn law_field_reads_back(value: Seq<char>, rest: Seq<char>)
    requires
        ends_field(rest),
    ensures
        read_field(escaped(value) + rest) == (value, rest),
{
    let text = escaped(value) + rest;
    if is_plain(value) {
        lemma_read_bare(value, rest);
        if value.len() > 0 {
            assert(!is_special(value[0]));
        }
    } else {
        lemma_read_quoted(value, rest);
        assert(text.skip(1) =~= quotes_doubled(value) + seq!['"'] + rest);
    }
}

/// Different values are written as different fields.
pub proof fn law_escape_is_injective(left: Seq<char>, right: Seq<char>)
    requires
        escaped(left) == escaped(right),
    ensures
        left == right,
{
    law_field_reads_back(left, Seq::empty());
    law_field_reads_back(right, Seq::empty());
}

/// A line of values, each written as a field.
pub open spec fn record_text(values: Seq<Seq<char>>) -> Seq<char>
    decreases values.len(),
{
    if values.len() == 0 {
        Seq::empty()
    } else if values.len() == 1 {
        escaped(values[0]) + seq!['\n']
    } else {
        escaped(values[0]) + seq![','] + record_text(values.skip(1))
    }
}

/// A line of one or more values is read back unchanged, whatever follows the line.
pub proof fn law_record_reads_back(values: Seq<Seq<char>>, rest: Seq<char>)
    requires
        values.len() > 0,
    ensures
        read_record(record_text(values) + rest) == (values, rest),
    decreases values.len(),
{
    let text = record_text(values) + rest;
    if values.len() == 1 {
        let after = seq!['\n'] + rest;
        assert(text =~= escaped(values[0]) + after);
        law_field_reads_back(values[0], after);
        assert(after.skip(1) =~= rest);
        assert(values =~= seq![values[0]]);
    } else {
        let tail = values.skip(1);
        let after = seq![','] + (record_text(tail) + rest);
        assert(text =~= escaped(values[0]) + after);
        law_field_reads_back(values[0], after);
        law_record_reads_back(tail, rest);
        assert(after.skip(1) =~= record_text(tail) + rest);
        assert(values =~= seq![values[0]] + tail);
    }
}

/// Lines of values, one after the other.
pub open spec fn records_text(records: Seq<Seq<Seq<char>>>) -> Seq<char>
    decreases records.len(),
{
    if records.len() == 0 {
        Seq::empty()
    } else {
        records_text(records.drop_last()) + record_text(records.last())
    }
}

proof fn lemma_records_text_front(records: Seq<Seq<Seq<char>>>)
    requires
        records.len() > 0,
    ensures
        records_text(records) == record_text(records[0]) + records_text(records.skip(1)),
    decreases records.len(),
{
    if records.len() == 1 {
        assert(records.skip(1) =~= Seq::empty());
        assert(records.drop_last() =~= Seq::empty());
        assert(records_text(records) =~= record_text(records[0]) + records_text(records.skip(1)));
    } else {
        lemma_records_text_front(records.drop_last());
        assert(records.skip(1).drop_last() =~= records.drop_last().skip(1));
        assert(records_text(records) =~= record_text(records[0]) + records_text(records.skip(1)));
    }
}

proof fn lemma_record_text_len(values: Seq<Seq<char>>)
    requires
        values.len() > 0,
    ensures
        record_text(values).len() > 0,
{
}

/// Lines of one or more values each are read back unchanged.
pub proof fn law_records_read_back(records: Seq<Seq<Seq<char>>>)
    requires
        forall|i: int| 0 <= i < records.len() ==> (#[trigger] records[i]).len() > 0,
    ensures
        read_document(records_text(records)) == records,
    decreases records.len(),
{
    if records.len() == 0 {
        assert(records =~= Seq::empty());
    } else {
        let tail = records.skip(1);
        assert(records[0].len() > 0);
        assert forall|i: int| 0 <= i < tail.len() implies (#[trigger] tail[i]).len() > 0 by {
            assert(tail[i] == records[i + 1]);
        }
        lemma_records_text_front(records);
        lemma_record_text_len(records[0]);
        law_record_reads_back(records[0], records_text(tail));
        law_records_read_back(tail);
        assert(records =~= seq![records[0]] + tail);
    }
}

/// The names of the columns of an export.
pub open spec fn column_names() -> Seq<Seq<char>> {
    seq!["timestamp"@, "ssid"@, "signal"@, "bssid"@, "channel"@, "frequency"@]
}

/// The values in the columns for one sample.
pub open spec fn sample_values(stamp: Seq<char>, sample: SampleView) -> Seq<Seq<char>> {
    seq![
        stamp,
        sample.ssid,
        integer(sample.signal_level as int),
        sample.bssid,
        natural(sample.channel as nat),
        natural(sample.frequency as nat),
    ]
}

/// The values in the columns for each of the samples of a snapshot.
pub open spec fn data_values(stamp: Seq<char>, data: Seq<SampleView>) -> Seq<Seq<Seq<char>>> {
    data.map_values(|sample: SampleView| sample_values(stamp, sample))
}

/// The values in the columns for each sample of each snapshot.
pub open spec fn snapshot_values(
    stamps: Seq<Seq<char>>,
    snapshots: Seq<SnapshotView>,
) -> Seq<Seq<Seq<char>>>
    decreases snapshots.len(),
{
    if snapshots.len() == 0 {
        Seq::empty()
    } else {
        let last = snapshots.len() - 1;
        snapshot_values(stamps, snapshots.drop_last()) + data_values(
            stamps[last],
            snapshots[last].data,
        )
    }
}

proof fn lemma_natural_is_plain(value: nat)
    ensures
        is_plain(natural(value)),
        natural(value).len() > 0,
    decreases value,
{
    if value >= 10 {
        lemma_natural_is_plain(value / 10);
        assert forall|i: int| 0 <= i < natural(value).len() implies !is_special(
            #[trigger] natural(value)[i],
        ) by {
            if i < natural(value / 10).len() {
                assert(natural(value)[i] == natural(value / 10)[i]);
            }
        }
    }
}

proof fn lemma_integer_is_plain(value: int)
    ensures
        is_plain(integer(value)),
{
    if value < 0 {
        lemma_natural_is_plain((-value) as nat);
        assert forall|i: int| 0 <= i < integer(value).len() implies !is_special(
            #[trigger] integer(value)[i],
        ) by {
            if i > 0 {
                assert(integer(value)[i] == natural((-value) as nat)[i - 1]);
            }
        }
    } else {
        lemma_natural_is_plain(value as nat);
    }
}

proof fn lemma_regroup(start: Seq<char>, field: Seq<char>, end: Seq<char>)
    ensures
        start + field + seq![','] + end == start + (field + seq![','] + end),
{
    assert(start + field + seq![','] + end =~= start + (field + seq![','] + end));
}

/// A line of six fields, written out.
proof fn lemma_record_of_six(v: Seq<Seq<char>>)
    requires
        v.len() == 6,
    ensures
        record_text(v) == escaped(v[0]) + seq![','] + escaped(v[1]) + seq![','] + escaped(v[2])
            + seq![','] + escaped(v[3]) + seq![','] + escaped(v[4]) + seq![','] + escaped(v[5])
            + seq!['\n'],
{
    let comma = seq![','];
    let e0 = escaped(v[0]);
    let e1 = escaped(v[1]);
    let e2 = escaped(v[2]);
    let e3 = escaped(v[3]);
    let e4 = escaped(v[4]);
    let e5 = escaped(v[5]);
    assert(v.skip(1).skip(1) =~= v.skip(2));
    assert(v.skip(2).skip(1) =~= v.skip(3));
    assert(v.skip(3).skip(1) =~= v.skip(4));
    assert(v.skip(4).skip(1) =~= v.skip(5));
    let t5 = record_text(v.skip(5));
    let t4 = record_text(v.skip(4));
    let t3 = record_text(v.skip(3));
    let t2 = record_text(v.skip(2));
    let t1 = record_text(v.skip(1));
    assert(t5 == e5 + seq!['\n']);
    assert(t4 == e4 + comma + t5);
    assert(t3 == e3 + comma + t4);
    assert(t2 == e2 + comma + t3);
    assert(t1 == e1 + comma + t2);
    assert(record_text(v) == e0 + comma + t1);
    let s0 = e0 + comma;
    let s1 = s0 + e1 + comma;
    let s2 = s1 + e2 + comma;
    let s3 = s2 + e3 + comma;
    let s4 = s3 + e4 + comma;
    lemma_regroup(s0, e1, t2);
    lemma_regroup(s1, e2, t3);
    lemma_regroup(s2, e3, t4);
    lemma_regroup(s3, e4, t5);
    assert(s4 + e5 + seq!['\n'] =~= s4 + t5);
}

proof fn lemma_row_is_record(stamp: Seq<char>, sample: SampleView)
    requires
        is_plain(stamp),
    ensures
        row(stamp, sample) == record_text(sample_values(stamp, sample)),
{
    lemma_integer_is_plain(sample.signal_level as int);
    lemma_natural_is_plain(sample.channel as nat);
    lemma_natural_is_plain(sample.frequency as nat);
    lemma_record_of_six(sample_values(stamp, sample));
}

proof fn lemma_header_is_record()
    ensures
        header() == record_text(column_names()),
{
    reveal_strlit("timestamp,ssid,signal,bssid,channel,frequency\n");
    reveal_strlit("timestamp");
    reveal_strlit("ssid");
    reveal_strlit("signal");
    reveal_strlit("bssid");
    reveal_strlit("channel");
    reveal_strlit("frequency");
    let values = column_names();
    assert forall|k: int| 0 <= k < values.len() implies is_plain(#[trigger] values[k]) by {}
    lemma_record_of_six(values);
    assert(header() =~= record_text(values));
}

proof fn lemma_rows_are_records(stamp: Seq<char>, data: Seq<SampleView>)
    requires
        is_plain(stamp),
    ensures
        rows(stamp, data) == records_text(data_values(stamp, data)),
    decreases data.len(),
{
    if data.len() > 0 {
        lemma_rows_are_records(stamp, data.drop_last());
        lemma_row_is_record(stamp, data.last());
        assert(data_values(stamp, data).drop_last() =~= data_values(stamp, data.drop_last()));
    }
}

proof fn lemma_records_text_concat(first: Seq<Seq<Seq<char>>>, second: Seq<Seq<Seq<char>>>)
    ensures
        records_text(first + second) == records_text(first) + records_text(second),
    decreases second.len(),
{
    if second.len() == 0 {
        assert(first + second =~= first);
        assert(records_text(first) + records_text(second) =~= records_text(first));
    } else {
        lemma_records_text_concat(first, second.drop_last());
        assert((first + second).drop_last() =~= first + second.drop_last());
        assert(records_text(first + second) =~= records_text(first) + records_text(second));
    }
}

proof fn lemma_snapshot_rows_are_records(stamps: Seq<Seq<char>>, snapshots: Seq<SnapshotView>)
    requires
        snapshots.len() <= stamps.len(),
        forall|i: int| 0 <= i < stamps.len() ==> is_plain(#[trigger] stamps[i]),
    ensures
        snapshot_rows(stamps, snapshots) == records_text(snapshot_values(stamps, snapshots)),
        forall|i: int|
            0 <= i < snapshot_values(stamps, snapshots).len() ==> (#[trigger] snapshot_values(
                stamps,
                snapshots,
            )[i]).len() > 0,
    decreases snapshots.len(),
{
    if snapshots.len() > 0 {
        let last = snapshots.len() - 1;
        let earlier = snapshot_values(stamps, snapshots.drop_last());
        let added = data_values(stamps[last], snapshots[last].data);
        lemma_snapshot_rows_are_records(stamps, snapshots.drop_last());
        assert(is_plain(stamps[last]));
        lemma_rows_are_records(stamps[last], snapshots[last].data);
        lemma_records_text_concat(earlier, added);
        assert forall|i: int| 0 <= i < snapshot_values(stamps, snapshots).len() implies (
        #[trigger] snapshot_values(stamps, snapshots)[i]).len() > 0 by {
            if i < earlier.len() {
                assert(snapshot_values(stamps, snapshots)[i] == earlier[i]);
            } else {
                assert(snapshot_values(stamps, snapshots)[i] == added[i - earlier.len()]);
            }
        }
    }
}

/// An export is read back as its column names followed by the values of every sample,
/// whatever characters the SSIDs and BSSIDs hold. The stamps, which are written as they
/// are, must hold no special character.
pub proof fn law_export_reads_back(stamps: Seq<Seq<char>>, snapshots: Seq<SnapshotView>)
    requires
        stamps.len() == snapshots.len(),
        forall|i: int| 0 <= i < stamps.len() ==> is_plain(#[trigger] stamps[i]),
    ensures
        read_document(document(stamps, snapshots)) == seq![column_names()] + snapshot_values(
            stamps,
            snapshots,
        ),
{
    let head = seq![column_names()];
    let values = snapshot_values(stamps, snapshots);
    let records = head + values;
    lemma_header_is_record();
    lemma_snapshot_rows_are_records(stamps, snapshots);
    lemma_records_text_concat(head, values);
    assert(records_text(head.drop_last()) =~= Seq::empty());
    assert(records_text(head) =~= header());
    assert forall|i: int| 0 <= i < records.len() implies (#[trigger] records[i]).len() > 0 by {
        if i > 0 {
            assert(records[i] == values[i - 1]);
        }
    }
    law_records_read_back(records);
}

// Numbers.

/// The number that decimal digits stand for.
pub open spec fn natural_value(digits: Seq<char>) -> int
    decreases digits.len(),
{
    if digits.len() == 0 {
        0
    } else {
        natural_value(digits.drop_last()) * 10 + (digits.last() as int - '0' as int)
    }
}

/// The number that digits after an optional minus sign stand for.
pub open spec fn integer_value(text: Seq<char>) -> int {
    if text.len() > 0 && text[0] == '-' {
        -natural_value(text.skip(1))
    } else {
        natural_value(text)
    }
}

proof fn lemma_natural_value(value: nat)
    ensures
        natural_value(natural(value)) == value,
        natural(value).len() > 0,
        natural(value)[0] != '-',
    decreases value,
{
    if value < 10 {
        assert(natural_value(natural(value).drop_last()) == 0);
    } else {
        lemma_natural_value(value / 10);
        assert(natural(value).drop_last() =~= natural(value / 10));
        assert(natural(value)[0] == natural(value / 10)[0]);
    }
}

/// A number is read back from its digits unchanged.
pub proof fn law_numbers_read_back(value: int)
    ensures
        integer_value(integer(value)) == value,
        value >= 0 ==> natural_value(natural(value as nat)) == value,
{
    if value < 0 {
        lemma_natural_value((-value) as nat);
        assert(integer(value).skip(1) =~= natural((-value) as nat));
    } else {
        lemma_natural_value(value as nat);
    }
}

// Laws of writing.

/// A value without a comma, a quote or a line break is its own field. Any other stands between
/// quotes, character by character, with two quotes in the place of each quote.
pub proof fn law_field_is_quoted_if_needed(value: Seq<char>)
    ensures
        (forall|i: int|
            0 <= i < value.len() ==> #[trigger] value[i] != ',' && value[i] != '"' && value[i]
                != '\n' && value[i] != '\r') ==> escaped(value) == value,
        (exists|i: int|
            0 <= i < value.len() && (#[trigger] value[i] == ',' || value[i] == '"' || value[i]
                == '\n' || value[i] == '\r')) ==> escaped(value) == seq!['"'] + value.map_values(
            |c: char|
                if c == '"' {
                    seq!['"', '"']
                } else {
                    seq![c]
                },
        ).flatten() + seq!['"'],
{
    lemma_quotes_doubled_is(value);
    if exists|i: int|
        0 <= i < value.len() && (#[trigger] value[i] == ',' || value[i] == '"' || value[i] == '\n'
            || value[i] == '\r') {
        let i = choose|i: int|
            0 <= i < value.len() && (#[trigger] value[i] == ',' || value[i] == '"' || value[i]
                == '\n' || value[i] == '\r');
        assert(is_special(value[i]));
    }
}

proof fn lemma_quotes_doubled_is(value: Seq<char>)
    ensures
        quotes_doubled(value) == value.map_values(
            |c: char|
                if c == '"' {
                    seq!['"', '"']
                } else {
                    seq![c]
                },
        ).flatten(),
    decreases value.len(),
{
    let pieces = value.map_values(
        |c: char|
            if c == '"' {
                seq!['"', '"']
            } else {
                seq![c]
            },
    );
    if value.len() == 0 {
        assert(pieces.flatten() =~= Seq::empty());
    } else {
        let earlier = value.drop_last();
        let earlier_pieces = earlier.map_values(
            |c: char|
                if c == '"' {
                    seq!['"', '"']
                } else {
                    seq![c]
                },
        );
        lemma_quotes_doubled_is(earlier);
        let last = if value.last() == '"' {
            seq!['"', '"']
        } else {
            seq![value.last()]
        };
        assert(pieces =~= earlier_pieces.push(last));
        earlier_pieces.lemma_flatten_push(last);
        assert(quotes_doubled(value) =~= quotes_doubled(earlier) + last);
    }
}

/// A row holds the stamp as it is, the SSID, the signal in dBm, the BSSID, the channel and the
/// frequency, in this order, with commas between them and a line end behind them.
pub proof fn law_row_holds_six_values(stamp: Seq<char>, sample: SampleView)
    ensures
        row(stamp, sample) == stamp + seq![','] + escaped(sample.ssid) + seq![','] + integer(
            sample.signal_level as int,
        ) + seq![','] + escaped(sample.bssid) + seq![','] + natural(sample.channel as nat) + seq![
            ',',
        ] + natural(sample.frequency as nat) + seq!['\n'],
{
}

proof fn lemma_snapshot_rows_prefix(
    stamps: Seq<Seq<char>>,
    more: Seq<Seq<char>>,
    snapshots: Seq<SnapshotView>,
)
    requires
        snapshots.len() <= stamps.len(),
        stamps.len() <= more.len(),
        forall|i: int| 0 <= i < stamps.len() ==> #[trigger] more[i] == stamps[i],
    ensures
        snapshot_rows(more, snapshots) == snapshot_rows(stamps, snapshots),
    decreases snapshots.len(),
{
    if snapshots.len() > 0 {
        lemma_snapshot_rows_prefix(stamps, more, snapshots.drop_last());
        assert(more[snapshots.len() - 1] == stamps[snapshots.len() - 1]);
    }
}

/// An export of nothing is the line of column names. A further snapshot without samples adds
/// nothing to an export, and each further sample of the last snapshot adds its row at the
/// end, with the stamp of that snapshot.
pub proof fn law_export_grows_by_rows(
    stamps: Seq<Seq<char>>,
    snapshots: Seq<SnapshotView>,
    stamp: Seq<char>,
    last: SnapshotView,
    sample: SampleView,
)
    requires
        stamps.len() == snapshots.len(),
    ensures
        document(Seq::empty(), Seq::empty()) == "timestamp,ssid,signal,bssid,channel,frequency\n"@,
        last.data.len() == 0 ==> document(stamps.push(stamp), snapshots.push(last)) == document(
            stamps,
            snapshots,
        ),
        document(
            stamps.push(stamp),
            snapshots.push(
                (SnapshotView { timestamp: last.timestamp, data: last.data.push(sample) }),
            ),
        ) == document(stamps.push(stamp), snapshots.push(last)) + row(stamp, sample),
{
    let longer = SnapshotView { timestamp: last.timestamp, data: last.data.push(sample) };
    let all = stamps.push(stamp);
    assert(document(Seq::empty(), Seq::empty()) =~= header());
    lemma_snapshot_rows_prefix(stamps, all, snapshots);
    assert(snapshots.push(last).drop_last() =~= snapshots);
    assert(snapshots.push(longer).drop_last() =~= snapshots);
    assert(longer.data.drop_last() =~= last.data);
    if last.data.len() == 0 {
        assert(rows(stamp, last.data) =~= Seq::empty());
        assert(document(all, snapshots.push(last)) =~= document(stamps, snapshots));
    }
    assert(rows(stamp, longer.data) == rows(stamp, last.data) + row(stamp, sample));
    assert(document(all, snapshots.push(longer)) =~= document(all, snapshots.push(last)) + row(
        stamp,
        sample,
    ));
}

/// The texts of strings are all of them in order.
pub proof fn law_string_views_hold_every_text(strings: Seq<String>)
    ensures
        string_views(strings).len() == strings.len(),
        forall|k: int| 0 <= k < strings.len() ==> #[trigger] string_views(strings)[k] == strings[k]@,
{
}

} // verus!
