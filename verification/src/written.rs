//! What is read back of a recording that was written.

use crate::datatype;
use crate::datatype::{DataType, Sample};
use crate::metadata::{Capture, SigmfMetadata};
use crate::packets;
use crate::packets::Layout;
use crate::recording::Recording;
use crate::writer;
use crate::writer::{Document, SigmfCapture, SigmfWriterMeta, ValueView};
use vstd::prelude::*;

verus! {

/// The value of a field, if there is one of that key.
pub open spec fn value_of(fields: Seq<(Seq<char>, ValueView)>, key: Seq<char>) -> Option<ValueView>
    decreases fields.len(),
{
    if fields.len() == 0 {
        None
    } else if fields.last().0 == key {
        Some(fields.last().1)
    } else {
        value_of(fields.drop_last(), key)
    }
}

/// A text field is read as such a text, or as none where it is not there.
pub open spec fn reads_text(value: Option<ValueView>, text: Option<String>) -> bool {
    match text {
        Some(s) => value == Some(ValueView::Text(s@)),
        None => value is None,
    }
}

/// The fields of a capture are read as such a capture. Where no start is
/// stated it is 0.
pub open spec fn reads_capture(fields: Seq<(Seq<char>, ValueView)>, c: Capture) -> bool {
    &&& match value_of(fields, "core:sample_start"@) {
        Some(v) => v == ValueView::Count(c.sample_start),
        None => c.sample_start == 0,
    }
    &&& match c.frequency {
        Some(f) => value_of(fields, "core:frequency"@) == Some(ValueView::Real(f)),
        None => value_of(fields, "core:frequency"@) is None,
    }
    &&& reads_text(value_of(fields, "core:datetime"@), c.datetime)
}

/// A document is read as such metadata: each field by its key. Where no version
/// is stated it is empty.
pub open spec fn reads(doc: Document, m: SigmfMetadata) -> bool {
    let global = writer::contents(doc.global@);
    &&& value_of(global, "core:datatype"@) == Some(ValueView::Text(m.global.datatype@))
    &&& value_of(global, "core:sample_rate"@) == Some(ValueView::Real(m.global.sample_rate))
    &&& match value_of(global, "core:version"@) {
        Some(v) => v == ValueView::Text(m.global.version@),
        None => m.global.version@ == Seq::<char>::empty(),
    }
    &&& reads_text(value_of(global, "core:description"@), m.global.description)
    &&& reads_text(value_of(global, "core:hw"@), m.global.hardware)
    &&& reads_text(value_of(global, "core:author"@), m.global.author)
    &&& m.captures@.len() == doc.captures@.len()
    &&& forall|i: int|
        0 <= i < m.captures@.len() ==> reads_capture(
            writer::contents(doc.captures@[i]@),
            #[trigger] m.captures@[i],
        )
    &&& m.annotations@ == doc.annotations@
}

/// The same text, or none in both cases.
pub open spec fn same_text(a: Option<String>, b: Option<String>) -> bool {
    match (a, b) {
        (Some(s), Some(t)) => s@ == t@,
        (None, None) => true,
        _ => false,
    }
}

/// A capture is the one that was written; its frequency bit for bit.
pub open spec fn same_capture(c: Capture, w: SigmfCapture) -> bool {
    &&& c.sample_start == w.sample_start
    &&& c.frequency == w.frequency_hz
    &&& same_text(c.datetime, w.datetime_rfc3339)
}

proof fn lemma_value_of_both(
    a: Seq<(Seq<char>, ValueView)>,
    b: Seq<(Seq<char>, ValueView)>,
    key: Seq<char>,
)
    ensures
        value_of(a + b, key) == match value_of(b, key) {
            Some(v) => Some(v),
            None => value_of(a, key),
        },
    decreases b.len(),
{
    if b.len() == 0 {
        assert(a + b =~= a);
    } else {
        assert((a + b).drop_last() =~= a + b.drop_last());
        lemma_value_of_both(a, b.drop_last(), key);
    }
}

proof fn lemma_value_of_one(k: Seq<char>, v: ValueView, key: Seq<char>)
    ensures
        value_of(seq![(k, v)], key) == if k == key {
            Some(v)
        } else {
            None
        },
{
    reveal_with_fuel(value_of, 2);
    assert(seq![(k, v)].drop_last() =~= seq![]);
}

proof fn lemma_value_of_text(k: Seq<char>, text: Option<String>, key: Seq<char>)
    ensures
        value_of(writer::text_field(k, text), key) == match text {
            Some(s) => if k == key {
                Some(ValueView::Text(s@))
            } else {
                None
            },
            None => None,
        },
{
    if let Some(s) = text {
        lemma_value_of_one(k, ValueView::Text(s@), key);
    }
}

proof fn lemma_capture_fields(w: SigmfCapture, key: Seq<char>)
    ensures
        key == "core:sample_start"@ ==> value_of(w.fields(), key) == Some(
            ValueView::Count(w.sample_start),
        ),
        key == "core:frequency"@ ==> value_of(w.fields(), key) == match w.frequency_hz {
            Some(f) => Some(ValueView::Real(f)),
            None => None,
        },
        key == "core:datetime"@ ==> value_of(w.fields(), key) == match w.datetime_rfc3339 {
            Some(s) => Some(ValueView::Text(s@)),
            None => None,
        },
{
    reveal_strlit("core:sample_start");
    reveal_strlit("core:frequency");
    reveal_strlit("core:datetime");
    reveal_strlit("core:geolocation");
    assert("core:sample_start"@.len() == 17 && "core:frequency"@.len() == 14
        && "core:datetime"@.len() == 13 && "core:geolocation"@.len() == 16);
    let start: Seq<(Seq<char>, ValueView)> = seq![
        ("core:sample_start"@, ValueView::Count(w.sample_start)),
    ];
    let frequency: Seq<(Seq<char>, ValueView)> = match w.frequency_hz {
        Some(f) => seq![("core:frequency"@, ValueView::Real(f))],
        None => seq![],
    };
    let datetime = writer::text_field("core:datetime"@, w.datetime_rfc3339);
    let place: Seq<(Seq<char>, ValueView)> = match w.geolocation {
        Some(p) => seq![
            ("core:geolocation"@, ValueView::Point { longitude: p@[0], latitude: p@[1] }),
        ],
        None => seq![],
    };
    assert(w.fields() == start + frequency + datetime + place);
    lemma_value_of_both(start + frequency + datetime, place, key);
    lemma_value_of_both(start + frequency, datetime, key);
    lemma_value_of_both(start, frequency, key);
    lemma_value_of_one("core:sample_start"@, ValueView::Count(w.sample_start), key);
    lemma_value_of_text("core:datetime"@, w.datetime_rfc3339, key);
    if let Some(f) = w.frequency_hz {
        lemma_value_of_one("core:frequency"@, ValueView::Real(f), key);
    }
    if let Some(p) = w.geolocation {
        lemma_value_of_one(
            "core:geolocation"@,
            ValueView::Point { longitude: p@[0], latitude: p@[1] },
            key,
        );
    }
}

proof fn lemma_global_fields(d: DataType, meta: SigmfWriterMeta, key: Seq<char>)
    ensures
        key == "core:datatype"@ ==> value_of(meta.global_fields(d), key) == Some(
            ValueView::Text(d.name()),
        ),
        key == "core:sample_rate"@ ==> value_of(meta.global_fields(d), key) == Some(
            ValueView::Real(meta.sample_rate_hz),
        ),
        key == "core:version"@ ==> value_of(meta.global_fields(d), key) == Some(
            ValueView::Text("1.0.0"@),
        ),
        key == "core:hw"@ ==> value_of(meta.global_fields(d), key) == match meta.hardware {
            Some(s) => Some(ValueView::Text(s@)),
            None => None,
        },
        key == "core:description"@ ==> value_of(meta.global_fields(d), key)
            == match meta.description {
            Some(s) => Some(ValueView::Text(s@)),
            None => None,
        },
        key == "core:author"@ ==> value_of(meta.global_fields(d), key) is None,
{
    reveal_strlit("core:datatype");
    reveal_strlit("core:sample_rate");
    reveal_strlit("core:version");
    reveal_strlit("core:hw");
    reveal_strlit("core:description");
    reveal_strlit("core:recorder");
    reveal_strlit("core:author");
    assert("core:datatype"@.len() == 13 && "core:sample_rate"@.len() == 16
        && "core:version"@.len() == 12 && "core:hw"@.len() == 7 && "core:description"@.len() == 16
        && "core:recorder"@.len() == 13 && "core:author"@.len() == 11);
    assert("core:datatype"@[5] == 'd' && "core:recorder"@[5] == 'r');
    assert("core:sample_rate"@[5] == 's' && "core:description"@[5] == 'd');
    let format: Seq<(Seq<char>, ValueView)> = seq![
        ("core:datatype"@, ValueView::Text(d.name())),
    ];
    let rate: Seq<(Seq<char>, ValueView)> = seq![
        ("core:sample_rate"@, ValueView::Real(meta.sample_rate_hz)),
    ];
    let version: Seq<(Seq<char>, ValueView)> = seq![("core:version"@, ValueView::Text("1.0.0"@))];
    let hw = writer::text_field("core:hw"@, meta.hardware);
    let description = writer::text_field("core:description"@, meta.description);
    let recorder = writer::text_field("core:recorder"@, meta.recorder);
    assert(meta.global_fields(d) =~= format + rate + version + hw + description + recorder);
    lemma_value_of_both(format + rate + version + hw + description, recorder, key);
    lemma_value_of_both(format + rate + version + hw, description, key);
    lemma_value_of_both(format + rate + version, hw, key);
    lemma_value_of_both(format + rate, version, key);
    lemma_value_of_both(format, rate, key);
    lemma_value_of_one("core:datatype"@, ValueView::Text(d.name()), key);
    lemma_value_of_one("core:sample_rate"@, ValueView::Real(meta.sample_rate_hz), key);
    lemma_value_of_one("core:version"@, ValueView::Text("1.0.0"@), key);
    lemma_value_of_text("core:hw"@, meta.hardware, key);
    lemma_value_of_text("core:description"@, meta.description, key);
    lemma_value_of_text("core:recorder"@, meta.recorder, key);
}

/// A recording is read back as it was written: format, rate, texts and
/// annotations, and each capture with its start, its frequency, signed and
/// fractional as it was, and its time. And what was written can be played.
pub proof fn lemma_written_recording_is_read_back(
    datatype: DataType,
    meta: SigmfWriterMeta,
    doc: Document,
    m: SigmfMetadata,
)
    requires
        meta.sound(),
        doc.describes(datatype, meta),
        reads(doc, m),
    ensures
        DataType::named(m.global.datatype@) == Some(datatype),
        m.global.sample_rate == meta.sample_rate_hz,
        m.global.version@ == "1.0.0"@,
        same_text(m.global.description, meta.description),
        same_text(m.global.hardware, meta.hardware),
        m.global.author is None,
        m.captures@.len() == meta.captures@.len(),
        forall|i: int|
            0 <= i < m.captures@.len() ==> same_capture(
                #[trigger] m.captures@[i],
                meta.captures@[i],
            ),
        m.annotations@ == meta.annotations@,
        Recording::playable(m),
{
    datatype::lemma_name_is_read_back(datatype);
    lemma_global_fields(datatype, meta, "core:datatype"@);
    lemma_global_fields(datatype, meta, "core:sample_rate"@);
    lemma_global_fields(datatype, meta, "core:version"@);
    lemma_global_fields(datatype, meta, "core:hw"@);
    lemma_global_fields(datatype, meta, "core:description"@);
    lemma_global_fields(datatype, meta, "core:author"@);
    assert forall|i: int| 0 <= i < m.captures@.len() implies same_capture(
        #[trigger] m.captures@[i],
        meta.captures@[i],
    ) by {
        assert(reads_capture(writer::contents(doc.captures@[i]@), m.captures@[i]));
        lemma_capture_fields(meta.captures@[i], "core:sample_start"@);
        lemma_capture_fields(meta.captures@[i], "core:frequency"@);
        lemma_capture_fields(meta.captures@[i], "core:datetime"@);
    }
}

/// Samples that were written as `cf32_le` are played back bit for bit and in
/// order, however the recording is cut into packets.
pub proof fn lemma_written_samples_are_played_back(layout: Layout, samples: Seq<Sample>)
    requires
        layout.well_formed(),
    ensures
        packets::joined(
            layout.packets(DataType::Cf32Le.decoded(DataType::Cf32Le.encoded(samples))),
        ) == samples,
{
    datatype::lemma_float_samples_are_read_back(samples);
    layout.lemma_packets_are_contiguous(samples);
}

} // verus!
