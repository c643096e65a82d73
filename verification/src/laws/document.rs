//! Laws of what is written of a recording: every field with its key and its
//! value, and no other.

use crate::datatype::DataType;
use crate::ieee::Binary64;
use crate::laws::codec;
use crate::laws::floats;
use crate::playback;
use crate::writer;
use crate::writer::{Document, Field, FieldValue, MetadataError, SigmfCapture, SigmfWriterMeta, ValueView};
use vstd::prelude::*;

verus! {

/// What a field holds is its key and its value, as they are.
pub proof fn lemma_field_view(fields: Seq<Field>, j: int)
    requires
        0 <= j < fields.len(),
    ensures
        writer::contents(fields).len() == fields.len(),
        writer::contents(fields)[j].0 == fields[j].key@,
        match fields[j].value {
            FieldValue::Text(s) => writer::contents(fields)[j].1 == ValueView::Text(s@),
            FieldValue::Count(n) => writer::contents(fields)[j].1 == ValueView::Count(n),
            FieldValue::Real(x) => writer::contents(fields)[j].1 == ValueView::Real(x),
            FieldValue::Pair(x, y) => writer::contents(fields)[j].1 == ValueView::Pair(x, y),
            FieldValue::Point { longitude, latitude } => writer::contents(fields)[j].1 == (
            ValueView::Point { longitude, latitude }),
        },
{
}

/// There is no field of that key.
pub open spec fn lacks(fields: Seq<Field>, key: Seq<char>) -> bool {
    forall|j: int| 0 <= j < fields.len() ==> (#[trigger] fields[j]).key@ != key
}

/// There is a field of that key, with a text.
pub open spec fn has_text(fields: Seq<Field>, key: Seq<char>, text: Seq<char>) -> bool {
    exists|j: int|
        0 <= j < fields.len() && (#[trigger] fields[j]).key@ == key && (
        fields[j].value matches FieldValue::Text(t) && t@ == text)
}

/// There is a field of that key, with a value that is no text.
pub open spec fn has(fields: Seq<Field>, key: Seq<char>, value: FieldValue) -> bool {
    exists|j: int|
        0 <= j < fields.len() && (#[trigger] fields[j]).key@ == key && fields[j].value == value
}

/// The text stands under that key, or nothing does.
pub open spec fn has_if(fields: Seq<Field>, key: Seq<char>, text: Option<String>) -> bool {
    match text {
        Some(s) => has_text(fields, key, s@),
        None => lacks(fields, key),
    }
}

/// No key is there twice.
pub open spec fn once(fields: Seq<Field>) -> bool {
    forall|i: int, j: int|
        0 <= i < j < fields.len() ==> (#[trigger] fields[i]).key@ != (#[trigger] fields[j]).key@
}

pub open spec fn count(present: bool) -> int {
    if present {
        1
    } else {
        0
    }
}

/// A capture is written with its start, and, where it has them, its frequency,
/// bit for bit, its time, and its place, longitude and latitude each as it is;
/// and with nothing else.
pub proof fn lemma_capture_as_written(
    datatype: DataType,
    meta: SigmfWriterMeta,
    doc: Document,
    i: int,
)
    requires
        doc.describes(datatype, meta),
        0 <= i < meta.captures@.len(),
    ensures
        doc.captures@.len() == meta.captures@.len(),
        ({
            let c = meta.captures@[i];
            let fields = doc.captures@[i]@;
            &&& once(fields)
            &&& fields.len() == 1 + count(c.frequency_hz is Some) + count(
                c.datetime_rfc3339 is Some,
            ) + count(c.geolocation is Some)
            &&& has(fields, "core:sample_start"@, FieldValue::Count(c.sample_start))
            &&& match c.frequency_hz {
                Some(f) => has(fields, "core:frequency"@, FieldValue::Real(f)),
                None => lacks(fields, "core:frequency"@),
            }
            &&& has_if(fields, "core:datetime"@, c.datetime_rfc3339)
            &&& match c.geolocation {
                Some(p) => has(
                    fields,
                    "core:geolocation"@,
                    (FieldValue::Point { longitude: p[0], latitude: p[1] }),
                ),
                None => lacks(fields, "core:geolocation"@),
            }
        }),
{
    let c = meta.captures@[i];
    let fields = doc.captures@[i]@;
    assert(writer::contents(fields) == c.fields());
    lemma_capture_fields(fields, c);
}

proof fn lemma_capture_fields(fields: Seq<Field>, c: SigmfCapture)
    requires
        writer::contents(fields) == c.fields(),
    ensures
        once(fields),
        fields.len() == 1 + count(c.frequency_hz is Some) + count(c.datetime_rfc3339 is Some)
            + count(c.geolocation is Some),
        has(fields, "core:sample_start"@, FieldValue::Count(c.sample_start)),
        match c.frequency_hz {
            Some(f) => has(fields, "core:frequency"@, FieldValue::Real(f)),
            None => lacks(fields, "core:frequency"@),
        },
        has_if(fields, "core:datetime"@, c.datetime_rfc3339),
        match c.geolocation {
            Some(p) => has(
                fields,
                "core:geolocation"@,
                (FieldValue::Point { longitude: p[0], latitude: p[1] }),
            ),
            None => lacks(fields, "core:geolocation"@),
        },
{
    reveal_strlit("core:sample_start");
    reveal_strlit("core:frequency");
    reveal_strlit("core:datetime");
    reveal_strlit("core:geolocation");
    assert("core:sample_start"@.len() == 17 && "core:frequency"@.len() == 14
        && "core:datetime"@.len() == 13 && "core:geolocation"@.len() == 16);
    let all = c.fields();
    let f: int = 1;
    let d: int = f + count(c.frequency_hz is Some);
    let g: int = d + count(c.datetime_rfc3339 is Some);
    assert(fields.len() == all.len());
    assert forall|j: int| 0 <= j < fields.len() implies all[j].0 == (#[trigger] fields[j]).key@
        && all[j].1 == fields[j].value@ by {
        assert(writer::contents(fields)[j] == (fields[j].key@, fields[j].value@));
    }
    assert(all[0].0 == "core:sample_start"@);
    assert(fields[0].value == FieldValue::Count(c.sample_start));
    if let Some(x) = c.frequency_hz {
        assert(all[f].0 == "core:frequency"@);
        assert(fields[f].value == FieldValue::Real(x));
    }
    if let Some(s) = c.datetime_rfc3339 {
        assert(all[d].0 == "core:datetime"@);
        assert(fields[d].value matches FieldValue::Text(t) && t@ == s@);
    }
    if let Some(p) = c.geolocation {
        assert(all[g].0 == "core:geolocation"@);
        assert(fields[g].value == (FieldValue::Point { longitude: p[0], latitude: p[1] }));
    }
}

/// The `global` object has the format, the rate, bit for bit, and the version,
/// and, where they are given, the hardware, the description and the recorder; and
/// nothing else.
pub proof fn lemma_global_as_written(datatype: DataType, meta: SigmfWriterMeta, doc: Document)
    requires
        doc.describes(datatype, meta),
    ensures
        ({
            let fields = doc.global@;
            &&& once(fields)
            &&& fields.len() == 3 + count(meta.hardware is Some) + count(meta.description is Some)
                + count(meta.recorder is Some)
            &&& datatype == DataType::Cf32Le ==> has_text(fields, "core:datatype"@, "cf32_le"@)
            &&& datatype == DataType::Ci16Le ==> has_text(fields, "core:datatype"@, "ci16_le"@)
            &&& datatype == DataType::Ci8 ==> has_text(fields, "core:datatype"@, "ci8"@)
            &&& has(fields, "core:sample_rate"@, FieldValue::Real(meta.sample_rate_hz))
            &&& has_text(fields, "core:version"@, "1.0.0"@)
            &&& has_if(fields, "core:hw"@, meta.hardware)
            &&& has_if(fields, "core:description"@, meta.description)
            &&& has_if(fields, "core:recorder"@, meta.recorder)
        }),
        doc.annotations@ == meta.annotations@,
{
    reveal_strlit("core:datatype");
    reveal_strlit("core:sample_rate");
    reveal_strlit("core:version");
    reveal_strlit("core:hw");
    reveal_strlit("core:description");
    reveal_strlit("core:recorder");
    assert("core:datatype"@.len() == 13 && "core:sample_rate"@.len() == 16
        && "core:version"@.len() == 12 && "core:hw"@.len() == 7 && "core:description"@.len() == 16
        && "core:recorder"@.len() == 13);
    assert("core:datatype"@[5] == 'd' && "core:recorder"@[5] == 'r');
    assert("core:sample_rate"@[5] == 's' && "core:description"@[5] == 'd');
    codec::lemma_format_is_written_by_its_name(datatype);
    let fields = doc.global@;
    let all = meta.global_fields(datatype);
    let h: int = 3;
    let d: int = h + count(meta.hardware is Some);
    let r: int = d + count(meta.description is Some);
    assert(fields.len() == all.len());
    assert forall|j: int| 0 <= j < fields.len() implies all[j].0 == (#[trigger] fields[j]).key@
        && all[j].1 == fields[j].value@ by {
        assert(writer::contents(fields)[j] == (fields[j].key@, fields[j].value@));
    }
    assert(all[0].0 == "core:datatype"@ && all[1].0 == "core:sample_rate"@ && all[2].0
        == "core:version"@);
    assert(fields[0].value matches FieldValue::Text(t) && t@ == datatype.name());
    assert(fields[1].value == FieldValue::Real(meta.sample_rate_hz));
    assert(fields[2].value matches FieldValue::Text(t) && t@ == "1.0.0"@);
    if let Some(s) = meta.hardware {
        assert(all[h].0 == "core:hw"@);
        assert(fields[h].value matches FieldValue::Text(t) && t@ == s@);
    }
    if let Some(s) = meta.description {
        assert(all[d].0 == "core:description"@);
        assert(fields[d].value matches FieldValue::Text(t) && t@ == s@);
    }
    if let Some(s) = meta.recorder {
        assert(all[r].0 == "core:recorder"@);
        assert(fields[r].value matches FieldValue::Text(t) && t@ == s@);
    }
}

/// A number that JSON can hold.
pub open spec fn finite(x: Binary64) -> bool {
    x.bits as nat % 0x8000_0000_0000_0000 < 0x7ff0_0000_0000_0000
}

/// The numbers of a capture can be written.
pub open spec fn finite_frequency(c: SigmfCapture) -> bool {
    c.frequency_hz matches Some(f) ==> finite(f)
}

pub open spec fn finite_place(c: SigmfCapture) -> bool {
    c.geolocation matches Some(p) ==> finite(p[0]) && finite(p[1])
}

/// Metadata is written if and only if its rate can be played and every number in
/// its captures is finite. Otherwise the first fault is reported, in the order of
/// the document.
pub proof fn lemma_what_is_refused(meta: SigmfWriterMeta, e: MetadataError)
    ensures
        meta.sound() <==> playback::usable_rate(meta.sample_rate_hz) && forall|i: int|
            0 <= i < meta.captures@.len() ==> finite_frequency(#[trigger] meta.captures@[i])
                && finite_place(meta.captures@[i]),
        meta.fault(e) <==> match e {
            MetadataError::SampleRate => !playback::usable_rate(meta.sample_rate_hz),
            MetadataError::Frequency { capture } => {
                &&& playback::usable_rate(meta.sample_rate_hz)
                &&& capture < meta.captures@.len()
                &&& !finite_frequency(meta.captures@[capture as int])
                &&& forall|i: int|
                    0 <= i < capture ==> finite_frequency(#[trigger] meta.captures@[i])
                        && finite_place(meta.captures@[i])
            },
            MetadataError::Geolocation { capture } => {
                &&& playback::usable_rate(meta.sample_rate_hz)
                &&& capture < meta.captures@.len()
                &&& finite_frequency(meta.captures@[capture as int])
                &&& !finite_place(meta.captures@[capture as int])
                &&& forall|i: int|
                    0 <= i < capture ==> finite_frequency(#[trigger] meta.captures@[i])
                        && finite_place(meta.captures@[i])
            },
        },
{
    assert forall|x: Binary64| #[trigger] x.finite() == finite(x) by {
        floats::lemma_wide_sign_and_magnitude(x, x);
    }
    assert forall|i: int| 0 <= i < meta.captures@.len() implies finite_frequency(
        #[trigger] meta.captures@[i],
    ) == meta.captures@[i].frequency_finite() && finite_place(meta.captures@[i])
        == meta.captures@[i].geolocation_finite() by {
        let c = meta.captures@[i];
        if let Some(f) = c.frequency_hz {
            assert(f.finite() == finite(f));
        }
        if let Some(p) = c.geolocation {
            assert(p@[0].finite() == finite(p[0]) && p@[1].finite() == finite(p[1]));
        }
    }
}

} // verus!
