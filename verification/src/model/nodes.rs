//! The node types of the flow graph, by what the graph needs to know of
//! them: their socket shapes and, for track readers, the track they read.
use vstd::prelude::*;
use crate::engine::tick::Tick;
use crate::ids::AudioTrackID;
use crate::model::DataKind;
use crate::model::socket::{Socket, SocketShape};

verus! {

/// The response shapes of the biquad filter.
#[derive(Clone, Copy, Debug, PartialEq, Eq, Structural)]
pub enum FilterType {
    LowShelf,
    Peaking,
    HighShelf,
    LowPass,
    HighPass,
}

/// Copies its single audio input to the master output.
#[derive(Clone, Copy, Debug)]
pub struct Master;

/// Offers a few primitive signal operations (gain, phase, width).
#[derive(Clone, Copy, Debug, Default)]
pub struct Utility;

impl Utility {
    /// Creates a new `Utility`.
    pub fn new() -> (r: Self) {
        Utility
    }
}

/// Adds up all of its inputs into one output.
#[derive(Clone, Copy, Debug, Default)]
pub struct Sum;

impl Sum {
    /// Creates a new `Sum`.
    pub fn new() -> (r: Self) {
        Sum
    }
}

/// The (empty) runtime state of a `Sum` node.
pub struct SumState {}

/// Copies one incoming signal to several outputs.
#[derive(Clone, Copy, Debug, Default)]
pub struct Duplicate;

impl Duplicate {
    /// Creates a new `Duplicate`.
    pub fn new() -> (r: Self) {
        Duplicate
    }
}

/// A biquad filter, by its settings. The frequency, quality and gain are
/// held as the bit patterns of their 32-bit floating-point values.
#[derive(Clone, Copy, Debug)]
pub struct BiquadFilter {
    pub channels: u16,
    pub filter_type: FilterType,
    pub sample_rate: u32,
    pub freq_bits: u32,
    pub q_bits: u32,
    pub db_gain_bits: u32,
}

impl BiquadFilter {
    /// A filter with these settings.
    pub fn new(channels: u16, filter_type: FilterType, sample_rate: u32, freq_bits: u32, q_bits: u32, db_gain_bits: u32) -> (r: Self)
        ensures
            r == (BiquadFilter { channels, filter_type, sample_rate, freq_bits, q_bits, db_gain_bits }),
    {
        BiquadFilter { channels, filter_type, sample_rate, freq_bits, q_bits, db_gain_bits }
    }
}

/// Plays the clips of one audio track.
#[derive(Clone, Copy, Debug)]
pub struct TrackReader {
    pub id: AudioTrackID,
    pub channels: u16,
}

impl TrackReader {
    /// Creates a reader for track `id` with `channels` output channels.
    pub fn new(id: AudioTrackID, channels: u16) -> (r: Self)
        ensures
            r.id == id,
            r.channels == channels,
    {
        TrackReader { id, channels }
    }
}

/// Marks nodes whose input arity can grow.
pub trait MultiInputNode {}

impl MultiInputNode for Sum {}

impl MultiInputNode for Duplicate {}

/// A node of the flow graph, as the graph stores it.
#[derive(Clone, Copy, Debug)]
pub enum NodeKind {
    Master,
    Utility,
    Sum,
    Duplicate,
    BiquadFilter(BiquadFilter),
    TrackReader(TrackReader),
}

/// The input sockets each kind of node declares.
pub open spec fn input_shape(k: NodeKind) -> Seq<SocketShape> {
    match k {
        NodeKind::Master => seq![(DataKind::Audio, "in"@, true)],
        NodeKind::Utility => seq![(DataKind::Audio, "audio in"@, true)],
        NodeKind::Sum => Seq::empty(),
        NodeKind::Duplicate => seq![(DataKind::Audio, "out"@, true)],
        NodeKind::BiquadFilter(_) => seq![(DataKind::Audio, "in"@, true)],
        NodeKind::TrackReader(_) => Seq::empty(),
    }
}

/// The output sockets each kind of node declares.
pub open spec fn output_shape(k: NodeKind) -> Seq<SocketShape> {
    match k {
        NodeKind::Master => seq![(DataKind::Audio, "out"@, false)],
        NodeKind::Utility => seq![(DataKind::Audio, "audio out"@, true)],
        NodeKind::Sum => seq![(DataKind::Audio, "out"@, true)],
        NodeKind::Duplicate => Seq::empty(),
        NodeKind::BiquadFilter(_) => seq![(DataKind::Audio, "out"@, true)],
        NodeKind::TrackReader(_) => seq![(DataKind::Audio, "audio out"@, true)],
    }
}

/// Every socket that a kind of node declares carries audio, so any
/// declared output can feed any declared input (of any kind of node).
pub proof fn law_declared_sockets_carry_audio(k: NodeKind, k2: NodeKind)
    ensures
        forall|j: int| 0 <= j < input_shape(k).len() ==> #[trigger] input_shape(k)[j].0 == DataKind::Audio,
        forall|j: int| 0 <= j < output_shape(k).len() ==> #[trigger] output_shape(k)[j].0 == DataKind::Audio,
        forall|p: int, j: int| 0 <= p < output_shape(k).len() && 0 <= j < input_shape(k2).len()
            ==> crate::model::connects(#[trigger] output_shape(k)[p].0, #[trigger] input_shape(k2)[j].0),
{
}

/// `v` declares exactly the sockets `shapes`, in order.
pub open spec fn declares(v: Seq<Socket>, shapes: Seq<SocketShape>) -> bool {
    &&& v.len() == shapes.len()
    &&& forall|i: int| 0 <= i < v.len() ==> #[trigger] v[i].shape() == shapes[i]
}

fn one_socket(kind: DataKind, name: &str, visible: bool) -> (r: Vec<Socket>)
    ensures
        declares(r@, seq![(kind, name@, visible)]),
{
    let mut v: Vec<Socket> = Vec::new();
    v.push(Socket::new(kind, name.to_owned(), visible));
    v
}

impl NodeKind {
    /// The input sockets this node declares.
    pub fn spec_in(&self) -> (r: Vec<Socket>)
        ensures
            declares(r@, input_shape(*self)),
    {
        match self {
            NodeKind::Master => one_socket(DataKind::Audio, "in", true),
            NodeKind::Utility => one_socket(DataKind::Audio, "audio in", true),
            NodeKind::Sum => Vec::new(),
            NodeKind::Duplicate => one_socket(DataKind::Audio, "out", true),
            NodeKind::BiquadFilter(_) => one_socket(DataKind::Audio, "in", true),
            NodeKind::TrackReader(_) => Vec::new(),
        }
    }

    /// The output sockets this node declares.
    pub fn spec_out(&self) -> (r: Vec<Socket>)
        ensures
            declares(r@, output_shape(*self)),
    {
        match self {
            NodeKind::Master => one_socket(DataKind::Audio, "out", false),
            NodeKind::Utility => one_socket(DataKind::Audio, "audio out", true),
            NodeKind::Sum => one_socket(DataKind::Audio, "out", true),
            NodeKind::Duplicate => Vec::new(),
            NodeKind::BiquadFilter(_) => one_socket(DataKind::Audio, "out", true),
            NodeKind::TrackReader(_) => one_socket(DataKind::Audio, "audio out", true),
        }
    }

    /// The track this node reads, if it is a track reader.
    pub fn track(&self) -> (r: Option<AudioTrackID>)
        ensures
            r == (match *self {
                NodeKind::TrackReader(t) => Some(t.id),
                _ => None::<AudioTrackID>,
            }),
    {
        match self {
            NodeKind::TrackReader(t) => Some(t.id),
            _ => None,
        }
    }
}

/// The greatest key of `m` below `s`, if there is one.
pub open spec fn last_before<V>(m: Map<u64, V>, s: u64) -> Option<u64> {
    if exists|k: u64| m.contains_key(k) && k < s {
        Some(choose|k: u64| m.contains_key(k) && k < s && forall|k2: u64| m.contains_key(k2) && k2 < s ==> k2 <= k)
    } else {
        None
    }
}

/// The clip stored last before the block, when it still sounds at the
/// block's start `s`: its start plus its length lies after `s`.
pub open spec fn lookback(m: Map<u64, (u64, u64)>, s: u64) -> Seq<u64> {
    match last_before(m, s) {
        Some(k) => if m[k].0 + m[k].1 > s { seq![k] } else { Seq::empty() },
        None => Seq::empty(),
    }
}

/// `s` rises strictly.
pub open spec fn rising(s: Seq<u64>) -> bool {
    forall|i: int, j: int| 0 <= i < j < s.len() ==> s[i] < s[j]
}

/// The entries as a map from key to clip start and length.
pub open spec fn entries_map(entries: Seq<(u64, (u64, u64))>) -> Map<u64, (u64, u64)> {
    Map::new(
        |k: u64| exists|a: int| 0 <= a < entries.len() && entries[a].0 == k,
        |k: u64| entries[choose|a: int| 0 <= a < entries.len() && entries[a].0 == k].1,
    )
}

/// The keys of `entries` rise strictly.
pub open spec fn keys_rise(entries: Seq<(u64, (u64, u64))>) -> bool {
    forall|a: int, b: int| 0 <= a < b < entries.len() ==> entries[a].0 < entries[b].0
}

/// The entries with rising keys are those of the map they make.
pub proof fn lemma_entries_map(entries: Seq<(u64, (u64, u64))>)
    requires
        keys_rise(entries),
    ensures
        forall|a: int| 0 <= a < entries.len() ==> entries_map(entries).contains_key(#[trigger] entries[a].0)
            && entries_map(entries)[entries[a].0] == entries[a].1,
        forall|k: u64| #[trigger] entries_map(entries).contains_key(k) ==> exists|a: int| 0 <= a < entries.len() && entries[a].0 == k,
{
    assert forall|a: int| 0 <= a < entries.len() implies entries_map(entries).contains_key(#[trigger] entries[a].0)
        && entries_map(entries)[entries[a].0] == entries[a].1 by {
        let k = entries[a].0;
        let b = choose|b: int| 0 <= b < entries.len() && entries[b].0 == k;
        if a < b {
            assert(entries[a].0 < entries[b].0);
        } else if b < a {
            assert(entries[b].0 < entries[a].0);
        }
    }
}

/// The position of the last entry whose key lies below `s`, if any.
fn last_below(entries: &[(u64, (u64, u64))], s: u64) -> (r: Option<usize>)
    requires
        keys_rise(entries@),
    ensures
        match r {
            Some(j) => j < entries@.len() && entries@[j as int].0 < s
                && forall|a: int| 0 <= a < entries@.len() && entries@[a].0 < s ==> a <= j,
            None => forall|a: int| 0 <= a < entries@.len() ==> entries@[a].0 >= s,
        },
{
    let mut before: Option<usize> = None;
    let mut i: usize = 0;
    while i < entries.len()
        invariant
            keys_rise(entries@),
            0 <= i <= entries.len(),
            match before {
                Some(j) => j < i && entries@[j as int].0 < s
                    && forall|a: int| 0 <= a < i && entries@[a].0 < s ==> a <= j,
                None => forall|a: int| 0 <= a < i ==> entries@[a].0 >= s,
            },
        decreases entries.len() - i,
    {
        if entries[i].0 < s {
            before = Some(i);
        }
        i = i + 1;
    }
    before
}

/// The keys of `entries` from `s` on and below `e`.
pub open spec fn keys_between(entries: Seq<(u64, (u64, u64))>, s: u64, e: u64) -> Set<u64> {
    Set::new(|k: u64| exists|a: int| 0 <= a < entries.len() && entries[a].0 == k && s <= k < e)
}

/// Appends to `out` the keys of `entries` from `s` on and below `e`, in
/// order.
fn push_between(entries: &[(u64, (u64, u64))], s: u64, e: u64, out: &mut Vec<u64>)
    requires
        keys_rise(entries@),
    ensures
        final(out)@.take(old(out)@.len() as int) == old(out)@,
        final(out)@.len() >= old(out)@.len(),
        rising(final(out)@.skip(old(out)@.len() as int)),
        final(out)@.skip(old(out)@.len() as int).to_set() == keys_between(entries@, s, e),
{
    let ghost base = out@;
    let ghost n0 = out@.len() as int;
    let mut i: usize = 0;
    proof {
        assert(out@.skip(n0).to_set() =~= keys_between(entries@.take(0), s, e));
    }
    while i < entries.len()
        invariant
            keys_rise(entries@),
            0 <= i <= entries.len(),
            n0 == base.len(),
            out@.len() >= n0,
            out@.take(n0) == base,
            rising(out@.skip(n0)),
            forall|t: int| 0 <= t < out@.skip(n0).len() ==> exists|a: int| 0 <= a < i && #[trigger] out@.skip(n0)[t] == entries@[a].0,
            out@.skip(n0).to_set() == keys_between(entries@.take(i as int), s, e),
        decreases entries.len() - i,
    {
        let k = entries[i].0;
        let ghost t0 = out@.skip(n0);
        proof {
            assert forall|x: u64| #[trigger] keys_between(entries@.take(i + 1), s, e).contains(x) <==>
                keys_between(entries@.take(i as int), s, e).contains(x) || (x == k && s <= k < e) by {
                if keys_between(entries@.take(i + 1), s, e).contains(x) {
                    let a = choose|a: int| 0 <= a < i + 1 && #[trigger] entries@.take(i + 1)[a].0 == x && s <= x < e;
                    if a < i {
                        assert(entries@.take(i as int)[a].0 == x);
                    }
                }
                if keys_between(entries@.take(i as int), s, e).contains(x) {
                    let a = choose|a: int| 0 <= a < i && #[trigger] entries@.take(i as int)[a].0 == x && s <= x < e;
                    assert(entries@.take(i + 1)[a].0 == x);
                }
                if x == k && s <= k < e {
                    assert(entries@.take(i + 1)[i as int].0 == x);
                }
            }
        }
        if s <= k && k < e {
            proof {
                assert forall|t: int| 0 <= t < t0.len() implies t0[t] < k by {
                    let a = choose|a: int| 0 <= a < i && #[trigger] t0[t] == entries@[a].0;
                }
            }
            out.push(k);
            proof {
                assert(out@.skip(n0) =~= t0.push(k));
                assert(out@.take(n0) =~= base);
                t0.lemma_push_to_set_commute(k);
                assert(keys_between(entries@.take(i + 1), s, e) =~= keys_between(entries@.take(i as int), s, e).insert(k));
                assert forall|t: int| 0 <= t < out@.skip(n0).len() implies exists|a: int| 0 <= a < i + 1
                    && #[trigger] out@.skip(n0)[t] == entries@[a].0 by {
                    if t < t0.len() {
                        assert(out@.skip(n0)[t] == t0[t]);
                        let a = choose|a: int| 0 <= a < i && #[trigger] t0[t] == entries@[a].0;
                    } else {
                        assert(out@.skip(n0)[t] == entries@[i as int].0);
                    }
                }
            }
        } else {
            proof {
                assert(keys_between(entries@.take(i + 1), s, e) =~= keys_between(entries@.take(i as int), s, e));
            }
        }
        i = i + 1;
    }
    proof {
        assert(entries@.take(i as int) =~= entries@);
    }
}

/// What the last entry below `s` and the keys from `s` on and below `e`
/// are, in the map the entries make.
proof fn lemma_scan_matches_map(entries: Seq<(u64, (u64, u64))>, before: Option<usize>, s: u64, e: u64)
    requires
        keys_rise(entries),
        match before {
            Some(j) => j < entries.len() && entries[j as int].0 < s
                && forall|a: int| 0 <= a < entries.len() && entries[a].0 < s ==> a <= j,
            None => forall|a: int| 0 <= a < entries.len() ==> entries[a].0 >= s,
        },
    ensures
        match before {
            Some(j) => last_before(entries_map(entries), s) == Some(entries[j as int].0)
                && entries_map(entries)[entries[j as int].0] == entries[j as int].1,
            None => last_before(entries_map(entries), s) is None,
        },
        keys_between(entries, s, e) == entries_map(entries).dom().filter(|k: u64| s <= k < e),
{
    let m = entries_map(entries);
    lemma_entries_map(entries);
    match before {
        Some(j) => {
            let kj = entries[j as int].0;
            assert(m.contains_key(kj) && kj < s);
            assert forall|k2: u64| m.contains_key(k2) && k2 < s implies k2 <= kj by {
                let a = choose|a: int| 0 <= a < entries.len() && entries[a].0 == k2;
                if a > j {
                    assert(entries[j as int].0 < entries[a].0);
                }
            }
            let c = choose|k: u64| m.contains_key(k) && k < s && forall|k2: u64| m.contains_key(k2) && k2 < s ==> k2 <= k;
            assert(c <= kj && kj <= c);
        },
        None => {
            assert forall|k2: u64| m.contains_key(k2) implies k2 >= s by {
                let a = choose|a: int| 0 <= a < entries.len() && entries[a].0 == k2;
            }
        },
    }
    assert(keys_between(entries, s, e) =~= m.dom().filter(|k: u64| s <= k < e)) by {
        assert forall|k: u64| m.dom().filter(|k: u64| s <= k < e).contains(k) implies keys_between(entries, s, e).contains(k) by {
            let a = choose|a: int| 0 <= a < entries.len() && entries[a].0 == k;
        }
    }
}

impl TrackReader {
    /// The clips of a reader's state that sound in the block of
    /// `block_len` frames from `block_start`, by key, written to `out`:
    /// the clip stored last before the block when it still sounds at the
    /// block's start, then every clip stored in the block, in order.
    /// `entries` lists each clip's key with its start and length, keys
    /// rising. `out` is cleared first, and grows only beyond the capacity it
    /// already has when it needs more.
    pub fn active_clips(entries: &[(u64, (u64, u64))], block_start: Tick, block_len: Tick, out: &mut Vec<u64>)
        requires
            keys_rise(entries@),
            block_start.0 + block_len.0 <= u64::MAX,
        ensures
            ({
                let m = entries_map(entries@);
                let head = lookback(m, block_start.0);
                &&& final(out)@.len() >= head.len()
                &&& final(out)@.take(head.len() as int) == head
                &&& rising(final(out)@.skip(head.len() as int))
                &&& final(out)@.skip(head.len() as int).to_set() == m.dom().filter(
                    |k: u64| block_start.0 <= k < block_start.0 + block_len.0)
            }),
    {
        let block_end = block_start.add(block_len);
        let s = block_start.0;
        let e = block_end.0;
        out.clear();
        let before = last_below(entries, s);
        match before {
            Some(j) => {
                let (key, (start, length)) = entries[j];
                if (start as u128) + (length as u128) > (s as u128) {
                    out.push(key);
                }
            },
            None => {},
        }
        proof {
            lemma_scan_matches_map(entries@, before, s, e);
            assert(out@ =~= lookback(entries_map(entries@), s));
        }
        push_between(entries, s, e, out);
    }
}

} // verus!
