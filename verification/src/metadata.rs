//! The metadata of a SigMF recording.

use crate::datatype::{DataType, UnsupportedDataType};
use crate::ieee::Binary64;
use vstd::prelude::*;

verus! {

/// `serde_json::Value`, a JSON value. Nothing is claimed of what one holds:
/// annotations are carried from a recording to its reader, or from a caller to
/// a recording, as they are, and a channel count is asked for its number.
#[verifier::external_type_specification]
#[verifier::external_body]
pub struct ExJsonValue(serde_json::Value);

/// Top-level SigMF metadata, mirroring the JSON layout of a `.sigmf-meta`.
/// Extension namespaces (anything prefixed other than `core:`) have no place
/// in it.
#[derive(Clone, Debug)]
pub struct SigmfMetadata {
    pub global: Global,
    pub captures: Vec<Capture>,
    /// Annotations are not consumed here. They are kept so that callers can
    /// warn if the file has annotation data that they expected to be respected.
    pub annotations: Vec<serde_json::Value>,
}

/// Global object: applies to the entire recording.
#[derive(Clone, Debug)]
pub struct Global {
    /// `core:datatype`
    pub datatype: String,
    /// `core:sample_rate`, in Hz
    pub sample_rate: Binary64,
    /// `core:version`. Mandatory in SigMF, but some writers omit it: then it
    /// is empty, and the capture is usable all the same.
    pub version: String,
    /// `core:description`
    pub description: Option<String>,
    /// `core:hw`
    pub hardware: Option<String>,
    /// `core:author`
    pub author: Option<String>,
}

/// One contiguous span of samples in the data file. Recordings with
/// frequency-hopping or gain-stepping use multiple captures, each with its own
/// `sample_start` index.
#[derive(Clone, Debug)]
pub struct Capture {
    /// `core:sample_start`
    pub sample_start: u64,
    /// `core:frequency`, in Hz
    pub frequency: Option<Binary64>,
    /// `core:datetime`
    pub datetime: Option<String>,
}

/// What a recording says of its number of channels (`core:num_channels`).
#[derive(Clone, Copy, Debug, PartialEq, Eq, Structural)]
pub enum ChannelCount {
    /// The field is absent.
    Unstated,
    /// A whole number that is not negative.
    Whole(u64),
    /// Any other JSON value.
    Other,
}

/// The whole number, not negative, that a JSON value is, if it is one.
pub uninterp spec fn whole_number(v: serde_json::Value) -> Option<u64>;

/// `serde_json::Value::as_u64`. What it gives is a function of the value alone
/// and goes by the name [`whole_number`]; which values are such numbers is not
/// stated.
#[verifier::external_body]
fn as_whole(v: &serde_json::Value) -> (r: Option<u64>)
    ensures
        r == whole_number(*v),
{
    v.as_u64()
}

/// What a recording says of its number of channels, given the value of
/// `core:num_channels`, where there is one: any value states something, `null`
/// too.
pub fn channel_count(stated: Option<&serde_json::Value>) -> (c: ChannelCount)
    ensures
        c == match stated {
            None => ChannelCount::Unstated,
            Some(v) => ChannelCount::stated(whole_number(*v)),
        },
        stated is None <==> c == ChannelCount::Unstated,
{
    match stated {
        None => ChannelCount::Unstated,
        Some(v) => stated_count(as_whole(v)),
    }
}

/// The channel count of a value that is such a whole number, or none.
pub fn stated_count(whole: Option<u64>) -> (c: ChannelCount)
    ensures
        c == ChannelCount::stated(whole),
{
    match whole {
        Some(n) => ChannelCount::Whole(n),
        None => ChannelCount::Other,
    }
}

/// The samples of a recording with more than one channel, or with a channel
/// count that is no such count, are not a single stream of IQ pairs.
#[derive(Clone, Copy, Debug, PartialEq, Eq, Structural)]
pub struct UnsupportedChannels {
    pub count: ChannelCount,
}

impl ChannelCount {
    /// What is stated by a value that is such a whole number, or none.
    pub open spec fn stated(whole: Option<u64>) -> ChannelCount {
        match whole {
            Some(n) => ChannelCount::Whole(n),
            None => ChannelCount::Other,
        }
    }

    /// A single channel, stated or understood.
    pub open spec fn single(self) -> bool {
        self == ChannelCount::Unstated || self == ChannelCount::Whole(1)
    }
}

/// Capture `i` comes before capture `j` by its start, or, where both start at
/// the same sample, by its place in the list.
pub open spec fn comes_before(captures: Seq<Capture>, i: int, j: int) -> bool {
    ||| captures[i].sample_start < captures[j].sample_start
    ||| captures[i].sample_start == captures[j].sample_start && i < j
}

/// `order` lists capture `c`.
pub open spec fn lists(order: Seq<usize>, c: int) -> bool {
    exists|k: int| 0 <= k < order.len() && #[trigger] order[k] == c
}

/// `order` lists the captures, each once, by their starts.
pub open spec fn start_order(captures: Seq<Capture>, order: Seq<usize>) -> bool {
    &&& order.len() == captures.len()
    &&& forall|i: int| 0 <= i < order.len() ==> 0 <= #[trigger] order[i] < captures.len()
    &&& forall|c: int| 0 <= c < captures.len() ==> #[trigger] lists(order, c)
    &&& forall|i: int, j: int|
        0 <= i < j < order.len() ==> comes_before(
            captures,
            #[trigger] order[i] as int,
            #[trigger] order[j] as int,
        )
}

/// The first capture by its start, and by its place among those that start
/// together.
pub open spec fn earliest(captures: Seq<Capture>, c: int) -> bool {
    &&& 0 <= c < captures.len()
    &&& forall|i: int| 0 <= i < captures.len() && i != c ==> comes_before(captures, c, i)
}

impl SigmfMetadata {
    /// Admits a parsed recording, if it has a single channel.
    pub fn load(parsed: SigmfMetadata, channels: ChannelCount) -> (r: Result<
        SigmfMetadata,
        UnsupportedChannels,
    >)
        ensures
            match r {
                Ok(m) => channels.single() && m == parsed,
                Err(e) => !channels.single() && e.count == channels,
            },
    {
        match channels {
            ChannelCount::Unstated => Ok(parsed),
            ChannelCount::Whole(n) => if n == 1 {
                Ok(parsed)
            } else {
                Err(UnsupportedChannels { count: channels })
            },
            ChannelCount::Other => Err(UnsupportedChannels { count: channels }),
        }
    }

    /// The captures, as indices into the list, in the order in which playback
    /// meets them: by `core:sample_start`, and as listed where two start at the
    /// same sample.
    pub fn captures_by_start(&self) -> (order: Vec<usize>)
        ensures
            start_order(self.captures@, order@),
    {
        let captures = &self.captures;
        let mut order: Vec<usize> = Vec::new();
        let mut i: usize = 0;
        while i < captures.len()
            invariant
                i <= captures@.len(),
                start_order(captures@.take(i as int), order@),
            decreases captures@.len() - i,
        {
            let ghost seen = captures@.take(i as int);
            let ghost now = captures@.take(i + 1);
            let mut p: usize = i;
            while p > 0 && captures[order[p - 1]].sample_start > captures[i].sample_start
                invariant
                    p <= i < captures@.len(),
                    order@.len() == i,
                    seen == captures@.take(i as int),
                    start_order(seen, order@),
                    forall|k: int|
                        p <= k < i ==> captures@[#[trigger] order@[k] as int].sample_start
                            > captures@[i as int].sample_start,
                decreases p,
            {
                p = p - 1;
            }
            let ghost was = order@;
            order.insert(p, i);
            proof {
                assert(order@ =~= was.insert(p as int, i));
                assert forall|c: int| 0 <= c < now.len() implies #[trigger] lists(order@, c) by {
                    if c < i {
                        assert(lists(was, c));
                        let k = choose|k: int| 0 <= k < was.len() && #[trigger] was[k] == c;
                        if k < p {
                            assert(order@[k] == c);
                        } else {
                            assert(order@[k + 1] == c);
                        }
                    } else {
                        assert(order@[p as int] == c);
                    }
                }
                assert forall|a: int, b: int| 0 <= a < b < order@.len() implies comes_before(
                    now,
                    #[trigger] order@[a] as int,
                    #[trigger] order@[b] as int,
                ) by {
                    let a0: int = if a < p {
                        a
                    } else {
                        a - 1
                    };
                    let b0: int = if b < p {
                        b
                    } else {
                        b - 1
                    };
                    if a != p && b != p {
                        assert(comes_before(seen, was[a0] as int, was[b0] as int));
                    } else if b == p {
                        assert(0 <= was[a] < i);
                        if a < p - 1 {
                            assert(comes_before(seen, was[a] as int, was[p - 1] as int));
                        }
                    } else {
                        assert(0 <= was[b0] < i);
                    }
                }
            }
            i = i + 1;
        }
        assert(captures@.take(i as int) =~= captures@);
        order
    }

    /// Centre frequency in Hz of the earliest capture, or `None` where there is
    /// no capture or that one states none.
    pub fn center_frequency_hz(&self) -> (r: Option<Binary64>)
        ensures
            self.captures@.len() == 0 ==> r is None,
            self.captures@.len() > 0 ==> exists|c: int|
                #[trigger] earliest(self.captures@, c) && r == self.captures@[c].frequency,
    {
        let order = self.captures_by_start();
        if order.len() == 0 {
            return None;
        }
        let ghost c: int = order@[0] as int;
        proof {
            let captures = self.captures@;
            assert forall|i: int| 0 <= i < captures.len() && i != c implies comes_before(
                captures,
                c,
                i,
            ) by {
                assert(lists(order@, i));
                let k = choose|k: int| 0 <= k < order@.len() && #[trigger] order@[k] == i;
                assert(comes_before(captures, order@[0] as int, order@[k] as int));
            }
            assert(earliest(captures, c));
        }
        self.captures[order[0]].frequency
    }

    /// Global sample rate in Hz. Mandatory in SigMF.
    pub fn sample_rate_hz(&self) -> (r: Binary64)
        ensures
            r == self.global.sample_rate,
    {
        self.global.sample_rate
    }

    /// The format of the data file.
    pub fn data_type(&self) -> (r: Result<DataType, UnsupportedDataType>)
        ensures
            match r {
                Ok(d) => DataType::named(self.global.datatype@) == Some(d),
                Err(e) => DataType::named(self.global.datatype@) is None && e.datatype@
                    == self.global.datatype@,
            },
    {
        DataType::from_spec(self.global.datatype.as_str())
    }
}

/// Captures have one order by start.
pub proof fn lemma_start_order_is_unique(captures: Seq<Capture>, a: Seq<usize>, b: Seq<usize>)
    requires
        start_order(captures, a),
        start_order(captures, b),
    ensures
        a == b,
{
    assert forall|i: int| 0 <= i < a.len() implies a[i] == b[i] by {
        lemma_same_place(captures, a, b, i);
    }
    assert(a =~= b);
}

proof fn lemma_same_place(captures: Seq<Capture>, a: Seq<usize>, b: Seq<usize>, i: int)
    requires
        start_order(captures, a),
        start_order(captures, b),
        0 <= i < a.len(),
    ensures
        a[i] == b[i],
    decreases i,
{
    assert forall|k: int| 0 <= k < i implies a[k] == b[k] by {
        lemma_same_place(captures, a, b, k);
    }
    if a[i] != b[i] {
        assert(lists(a, b[i] as int));
        assert(lists(b, a[i] as int));
        let j = choose|j: int| 0 <= j < a.len() && #[trigger] a[j] == b[i] as int;
        let k = choose|k: int| 0 <= k < b.len() && #[trigger] b[k] == a[i] as int;
        if j < i {
            assert(b[j] == b[i]);
            assert(comes_before(captures, b[j] as int, b[i] as int));
        }
        if k < i {
            assert(a[k] == a[i]);
            assert(comes_before(captures, a[k] as int, a[i] as int));
        }
        assert(comes_before(captures, a[i] as int, a[j] as int));
        assert(comes_before(captures, b[i] as int, b[k] as int));
    }
}

} // verus!
