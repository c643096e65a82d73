//! Writing a SigMF recording.

use crate::datatype::{DataType, Sample};
use crate::ieee::Binary64;
use crate::pair;
use crate::pair::pair_paths;
use crate::playback;
use crate::playback::packet_sample_rate;
use vstd::prelude::*;

verus! {

/// One capture-array entry for [`SigmfWriter::finalize`].
#[derive(Clone, Debug)]
pub struct SigmfCapture {
    pub sample_start: u64,
    pub frequency_hz: Option<Binary64>,
    pub datetime_rfc3339: Option<String>,
    /// GeoJSON `Point` coordinates as `[longitude, latitude]`.
    pub geolocation: Option<[Binary64; 2]>,
}

impl Default for SigmfCapture {
    fn default() -> (c: Self)
        ensures
            c == (SigmfCapture {
                sample_start: 0,
                frequency_hz: None,
                datetime_rfc3339: None,
                geolocation: None,
            }),
    {
        SigmfCapture {
            sample_start: 0,
            frequency_hz: None,
            datetime_rfc3339: None,
            geolocation: None,
        }
    }
}

/// Global-object fields for [`SigmfWriter::finalize`].
#[derive(Clone, Debug)]
pub struct SigmfWriterMeta {
    pub sample_rate_hz: Binary64,
    pub hardware: Option<String>,
    pub description: Option<String>,
    pub recorder: Option<String>,
    pub captures: Vec<SigmfCapture>,
    /// Passed through verbatim as the top-level `annotations` array, for callers
    /// that want documented sample ranges.
    pub annotations: Vec<serde_json::Value>,
}

/// The value of a field in a `.sigmf-meta`.
#[derive(Clone, Debug)]
pub enum FieldValue {
    Text(String),
    Count(u64),
    Real(Binary64),
    /// An array of two numbers.
    Pair(Binary64, Binary64),
    /// A GeoJSON `Point`: an object with the members that [`point_members`]
    /// gives.
    Point { longitude: Binary64, latitude: Binary64 },
}

/// One field of an object in a `.sigmf-meta`.
#[derive(Clone, Debug)]
pub struct Field {
    pub key: &'static str,
    pub value: FieldValue,
}

/// What a [`FieldValue`] holds.
pub enum ValueView {
    Text(Seq<char>),
    Count(u64),
    Real(Binary64),
    Pair(Binary64, Binary64),
    Point { longitude: Binary64, latitude: Binary64 },
}

impl View for FieldValue {
    type V = ValueView;

    open spec fn view(&self) -> ValueView {
        match self {
            FieldValue::Text(s) => ValueView::Text(s@),
            FieldValue::Count(n) => ValueView::Count(*n),
            FieldValue::Real(x) => ValueView::Real(*x),
            FieldValue::Pair(x, y) => ValueView::Pair(*x, *y),
            FieldValue::Point { longitude, latitude } => ValueView::Point {
                longitude: *longitude,
                latitude: *latitude,
            },
        }
    }
}

/// The key and the value of each of some fields.
pub open spec fn contents(fields: Seq<Field>) -> Seq<(Seq<char>, ValueView)> {
    fields.map_values(|f: Field| (f.key@, f.value@))
}

/// The contents of a `.sigmf-meta`: a `global` object, an array of `captures`
/// objects, and an array of `annotations`.
#[derive(Clone, Debug)]
pub struct Document {
    pub global: Vec<Field>,
    pub captures: Vec<Vec<Field>>,
    pub annotations: Vec<serde_json::Value>,
}

/// One part of a `.sigmf-meta`.
#[derive(Clone, Debug)]
pub enum Section {
    /// An object.
    Fields(Vec<Field>),
    /// An array of objects.
    List(Vec<Vec<Field>>),
    /// An array of values.
    Values(Vec<serde_json::Value>),
}

/// What is left of a writer at its end: the bytes that the data file has not got
/// yet, and what to write to the metadata file.
#[derive(Debug)]
pub struct Finished {
    pub rest: Vec<u8>,
    pub document: Result<Document, MetadataError>,
}

/// Why a recording's metadata cannot be written: a number that no JSON number
/// stands for, or a rate at which the recording could not be played.
#[derive(Clone, Copy, Debug, PartialEq, Eq, Structural)]
pub enum MetadataError {
    SampleRate,
    Frequency { capture: usize },
    Geolocation { capture: usize },
}

impl MetadataError {
    /// The error in words.
    pub fn message(&self) -> (m: &'static str)
        ensures
            m@ == match self {
                MetadataError::SampleRate =>
                    "sample_rate_hz must be finite, positive, and representable as a positive finite f32"@,
                MetadataError::Frequency { .. } => "frequency_hz of a capture must be finite"@,
                MetadataError::Geolocation { .. } => "geolocation of a capture must be finite"@,
            },
    {
        match self {
            MetadataError::SampleRate =>
                "sample_rate_hz must be finite, positive, and representable as a positive finite f32",
            MetadataError::Frequency { .. } => "frequency_hz of a capture must be finite",
            MetadataError::Geolocation { .. } => "geolocation of a capture must be finite",
        }
    }
}

/// One field, or none where there is no text for it.
pub open spec fn text_field(key: Seq<char>, value: Option<String>) -> Seq<(Seq<char>, ValueView)> {
    match value {
        Some(s) => seq![(key, ValueView::Text(s@))],
        None => seq![],
    }
}

impl SigmfCapture {
    pub open spec fn frequency_finite(self) -> bool {
        self.frequency_hz matches Some(f) ==> f.finite()
    }

    pub open spec fn geolocation_finite(self) -> bool {
        self.geolocation matches Some(p) ==> p@[0].finite() && p@[1].finite()
    }

    /// The fields that this capture is written with.
    pub open spec fn fields(self) -> Seq<(Seq<char>, ValueView)> {
        seq![("core:sample_start"@, ValueView::Count(self.sample_start))] + match self.frequency_hz {
            Some(f) => seq![("core:frequency"@, ValueView::Real(f))],
            None => seq![],
        } + text_field("core:datetime"@, self.datetime_rfc3339) + match self.geolocation {
            Some(p) => seq![
                (
                    "core:geolocation"@,
                    ValueView::Point { longitude: p@[0], latitude: p@[1] },
                ),
            ],
            None => seq![],
        }
    }
}

impl SigmfWriterMeta {
    /// The first `n` captures can be written.
    pub open spec fn captures_sound(self, n: int) -> bool {
        forall|i: int|
            0 <= i < n ==> (#[trigger] self.captures@[i]).frequency_finite()
                && self.captures@[i].geolocation_finite()
    }

    /// The metadata can be written.
    pub open spec fn sound(self) -> bool {
        playback::usable_rate(self.sample_rate_hz) && self.captures_sound(
            self.captures@.len() as int,
        )
    }

    /// What is the first thing, in the order of the document, that stands
    /// against writing the metadata.
    pub open spec fn fault(self, e: MetadataError) -> bool {
        match e {
            MetadataError::SampleRate => !playback::usable_rate(self.sample_rate_hz),
            MetadataError::Frequency { capture } => {
                &&& playback::usable_rate(self.sample_rate_hz)
                &&& capture < self.captures@.len()
                &&& self.captures_sound(capture as int)
                &&& !self.captures@[capture as int].frequency_finite()
            },
            MetadataError::Geolocation { capture } => {
                &&& playback::usable_rate(self.sample_rate_hz)
                &&& capture < self.captures@.len()
                &&& self.captures_sound(capture as int)
                &&& self.captures@[capture as int].frequency_finite()
                &&& !self.captures@[capture as int].geolocation_finite()
            },
        }
    }

    /// The fields of the `global` object of a recording in this format.
    pub open spec fn global_fields(self, datatype: DataType) -> Seq<(Seq<char>, ValueView)> {
        seq![
            ("core:datatype"@, ValueView::Text(datatype.name())),
            ("core:sample_rate"@, ValueView::Real(self.sample_rate_hz)),
            ("core:version"@, ValueView::Text("1.0.0"@)),
        ] + text_field("core:hw"@, self.hardware) + text_field(
            "core:description"@,
            self.description,
        ) + text_field("core:recorder"@, self.recorder)
    }

    /// Whether the metadata can be written, or what is the first thing that
    /// stands against it.
    pub fn check(&self) -> (r: Result<(), MetadataError>)
        ensures
            match r {
                Ok(()) => self.sound(),
                Err(e) => self.fault(e),
            },
    {
        if packet_sample_rate(self.sample_rate_hz).is_err() {
            return Err(MetadataError::SampleRate);
        }
        let mut i: usize = 0;
        while i < self.captures.len()
            invariant
                i <= self.captures@.len(),
                playback::usable_rate(self.sample_rate_hz),
                self.captures_sound(i as int),
            decreases self.captures@.len() - i,
        {
            let c = &self.captures[i];
            if let Some(f) = c.frequency_hz {
                if !f.is_finite() {
                    return Err(MetadataError::Frequency { capture: i });
                }
            }
            if let Some(p) = c.geolocation {
                if !p[0].is_finite() || !p[1].is_finite() {
                    return Err(MetadataError::Geolocation { capture: i });
                }
            }
            i = i + 1;
        }
        Ok(())
    }
}

/// The fault in a recording's metadata is one, and sound metadata has none.
pub proof fn lemma_fault_is_unique(meta: SigmfWriterMeta, a: MetadataError, b: MetadataError)
    requires
        meta.fault(a),
    ensures
        !meta.sound(),
        meta.fault(b) ==> a == b,
{
    let n = meta.captures@.len() as int;
    if meta.captures_sound(n) {
        match a {
            MetadataError::SampleRate => {},
            MetadataError::Frequency { capture } => {
                assert(meta.captures@[capture as int].frequency_finite());
            },
            MetadataError::Geolocation { capture } => {
                assert(meta.captures@[capture as int].geolocation_finite());
            },
        }
    }
    if meta.fault(b) && !(a is SampleRate) {
        let i = match a {
            MetadataError::SampleRate => 0,
            MetadataError::Frequency { capture } => capture as int,
            MetadataError::Geolocation { capture } => capture as int,
        };
        let j = match b {
            MetadataError::SampleRate => 0,
            MetadataError::Frequency { capture } => capture as int,
            MetadataError::Geolocation { capture } => capture as int,
        };
        if i < j {
            assert(meta.captures@[i].frequency_finite() && meta.captures@[i].geolocation_finite());
        } else if j < i {
            assert(meta.captures@[j].frequency_finite() && meta.captures@[j].geolocation_finite());
        }
    }
}

impl Document {
    /// The document holds the metadata of a recording in this format, and
    /// nothing else.
    pub open spec fn describes(self, datatype: DataType, meta: SigmfWriterMeta) -> bool {
        &&& contents(self.global@) == meta.global_fields(datatype)
        &&& self.captures@.len() == meta.captures@.len()
        &&& forall|i: int|
            0 <= i < meta.captures@.len() ==> contents((#[trigger] self.captures@[i])@)
                == meta.captures@[i].fields()
        &&& self.annotations@ == meta.annotations@
    }

    /// The parts of the document, each with its name.
    pub fn sections(self) -> (r: [(&'static str, Section); 3])
        ensures
            r@[0].0@ == "global"@,
            r@[0].1 == Section::Fields(self.global),
            r@[1].0@ == "captures"@,
            r@[1].1 == Section::List(self.captures),
            r@[2].0@ == "annotations"@,
            r@[2].1 == Section::Values(self.annotations),
    {
        [
            ("global", Section::Fields(self.global)),
            ("captures", Section::List(self.captures)),
            ("annotations", Section::Values(self.annotations)),
        ]
    }
}

/// The members of a GeoJSON `Point`.
pub fn point_members(longitude: Binary64, latitude: Binary64) -> (members: Vec<Field>)
    ensures
        contents(members@) == seq![
            ("type"@, ValueView::Text("Point"@)),
            ("coordinates"@, ValueView::Pair(longitude, latitude)),
        ],
{
    let mut members: Vec<Field> = Vec::new();
    assert(contents(members@) =~= seq![]);
    push_field(&mut members, "type", FieldValue::Text("Point".to_owned()));
    push_field(&mut members, "coordinates", FieldValue::Pair(longitude, latitude));
    assert(contents(members@) =~= seq![
        ("type"@, ValueView::Text("Point"@)),
        ("coordinates"@, ValueView::Pair(longitude, latitude)),
    ]);
    members
}

fn push_field(fields: &mut Vec<Field>, key: &'static str, value: FieldValue)
    ensures
        contents(final(fields)@) == contents(old(fields)@).push((key@, value@)),
{
    let ghost v = value@;
    fields.push(Field { key, value });
    assert(contents(fields@) =~= contents(old(fields)@).push((key@, v)));
}

fn push_text(fields: &mut Vec<Field>, key: &'static str, value: Option<String>)
    ensures
        contents(final(fields)@) == contents(old(fields)@) + text_field(key@, value),
{
    match value {
        Some(s) => {
            push_field(fields, key, FieldValue::Text(s));
            assert(contents(fields@) =~= contents(old(fields)@) + text_field(key@, value));
        },
        None => {
            assert(contents(fields@) =~= contents(old(fields)@) + text_field(key@, value));
        },
    }
}

fn capture_fields(c: SigmfCapture) -> (fields: Vec<Field>)
    ensures
        contents(fields@) == c.fields(),
{
    let mut fields: Vec<Field> = Vec::new();
    assert(contents(fields@) =~= seq![]);
    push_field(&mut fields, "core:sample_start", FieldValue::Count(c.sample_start));
    if let Some(f) = c.frequency_hz {
        push_field(&mut fields, "core:frequency", FieldValue::Real(f));
    }
    push_text(&mut fields, "core:datetime", c.datetime_rfc3339);
    if let Some(p) = c.geolocation {
        push_field(
            &mut fields,
            "core:geolocation",
            FieldValue::Point { longitude: p[0], latitude: p[1] },
        );
    }
    assert(contents(fields@) =~= c.fields());
    fields
}

/// The writer of a `.sigmf-data` and `.sigmf-meta` pair: it encodes the samples
/// and makes up the metadata. The bytes of the data file wait in it until they
/// are taken.
#[derive(Debug)]
pub struct SigmfWriter {
    data_path: String,
    meta_path: String,
    datatype: DataType,
    data: Vec<u8>,
}

impl SigmfWriter {
    /// The bytes that wait to be taken.
    pub closed spec fn waiting(self) -> Seq<u8> {
        self.data@
    }

    pub closed spec fn format(self) -> DataType {
        self.datatype
    }

    pub closed spec fn data_file(self) -> Seq<char> {
        self.data_path@
    }

    pub closed spec fn meta_file(self) -> Seq<char> {
        self.meta_path@
    }

    /// A writer for a new recording, e.g. `base_path = "capture"` for
    /// `capture.sigmf-data` and `capture.sigmf-meta`.
    pub fn create(base_path: &str, datatype: DataType) -> (w: SigmfWriter)
        ensures
            w.data_file() == pair::data_path(base_path@),
            w.meta_file() == pair::meta_path(base_path@),
            w.format() == datatype,
            w.waiting() == Seq::<u8>::empty(),
    {
        let (meta_path, data_path) = pair_paths(base_path);
        SigmfWriter { data_path, meta_path, datatype, data: Vec::new() }
    }

    /// The path of the data file.
    pub fn data_path(&self) -> (p: &str)
        ensures
            p@ == self.data_file(),
    {
        self.data_path.as_str()
    }

    /// The path of the metadata file.
    pub fn meta_path(&self) -> (p: &str)
        ensures
            p@ == self.meta_file(),
    {
        self.meta_path.as_str()
    }

    /// Write already-encoded bytes straight through: the fast path for sources
    /// (e.g. a native `ci8`) that hand back bytes in the on-disk format.
    pub fn write_raw(&mut self, bytes: &[u8])
        ensures
            final(self).waiting() == old(self).waiting() + bytes@,
            final(self).format() == old(self).format(),
            final(self).data_file() == old(self).data_file(),
            final(self).meta_file() == old(self).meta_file(),
    {
        self.data.extend_from_slice(bytes);
        assert(self.data@ =~= old(self).data@ + bytes@);
    }

    /// Encode and write samples in this writer's format. `Cf32Le` writes the
    /// patterns as they are; `Ci16Le` and `Ci8` scale from the unit disc.
    pub fn write_samples(&mut self, samples: &[Sample])
        ensures
            final(self).waiting() == old(self).waiting() + old(self).format().encoded(samples@),
            final(self).format() == old(self).format(),
            final(self).data_file() == old(self).data_file(),
            final(self).meta_file() == old(self).meta_file(),
    {
        let datatype = self.datatype;
        datatype.encode_into(samples, &mut self.data);
    }

    /// Takes the bytes that wait, for the data file.
    pub fn take_data(&mut self) -> (bytes: Vec<u8>)
        ensures
            bytes@ == old(self).waiting(),
            final(self).waiting() == Seq::<u8>::empty(),
            final(self).format() == old(self).format(),
            final(self).data_file() == old(self).data_file(),
            final(self).meta_file() == old(self).meta_file(),
    {
        let mut bytes: Vec<u8> = Vec::new();
        std::mem::swap(&mut bytes, &mut self.data);
        bytes
    }

    /// Ends the recording: hands back the bytes that still wait, for the data
    /// file, and what to write to the metadata file, if the metadata can be
    /// written.
    pub fn finalize(self, meta: SigmfWriterMeta) -> (r: Finished)
        ensures
            r.rest@ == self.waiting(),
            match r.document {
                Ok(doc) => meta.sound() && doc.describes(self.format(), meta),
                Err(e) => meta.fault(e),
            },
    {
        let document = document_of(self.datatype, meta);
        Finished { rest: self.data, document }
    }
}

/// What to write to the metadata file of a recording in this format, if the
/// metadata can be written.
fn document_of(datatype: DataType, meta: SigmfWriterMeta) -> (r: Result<Document, MetadataError>)
    ensures
        match r {
            Ok(doc) => meta.sound() && doc.describes(datatype, meta),
            Err(e) => meta.fault(e),
        },
{
    match meta.check() {
        Ok(()) => {},
        Err(e) => {
            return Err(e);
        },
    }
    let ghost given = meta;
    let SigmfWriterMeta {
        sample_rate_hz,
        hardware,
        description,
        recorder,
        captures: written,
        annotations,
    } = meta;
    let mut global: Vec<Field> = Vec::new();
    assert(contents(global@) =~= seq![]);
    push_field(
        &mut global,
        "core:datatype",
        FieldValue::Text(datatype.to_spec().to_owned()),
    );
    push_field(&mut global, "core:sample_rate", FieldValue::Real(sample_rate_hz));
    push_field(&mut global, "core:version", FieldValue::Text("1.0.0".to_owned()));
    push_text(&mut global, "core:hw", hardware);
    push_text(&mut global, "core:description", description);
    push_text(&mut global, "core:recorder", recorder);
    assert(contents(global@) =~= given.global_fields(datatype));
    let mut captures: Vec<Vec<Field>> = Vec::new();
    for c in it: written
        invariant
            it.seq() == given.captures@,
            captures@.len() == it.index(),
            forall|i: int|
                0 <= i < captures@.len() ==> contents((#[trigger] captures@[i])@)
                    == given.captures@[i].fields(),
    {
        captures.push(capture_fields(c));
    }
    Ok(Document { global, captures, annotations })
}

} // verus!
