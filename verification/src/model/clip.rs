//! Audio clips: a span of the timeline that plays an asset.
use vstd::prelude::*;
use crate::ids::AudioAssetID;
use crate::engine::tick::Tick;

verus! {

/// An audio clip.
#[derive(Clone, Copy, Debug)]
pub struct AudioClip {
    pub start: Tick,
    pub length: Tick,
    pub asset_id: AudioAssetID,
}

impl AudioClip {
    /// Creates a clip that plays `asset_id` for `length` ticks from `start`.
    pub fn new(start: Tick, length: Tick, asset_id: AudioAssetID) -> (r: Self)
        ensures
            r.start == start,
            r.length == length,
            r.asset_id == asset_id,
    {
        AudioClip { start, length, asset_id }
    }
}

/// The later of two integers.
pub open spec fn later(a: int, b: int) -> int {
    if a >= b { a } else { b }
}

/// The earlier of two integers.
pub open spec fn earlier(a: int, b: int) -> int {
    if a <= b { a } else { b }
}

/// The mixing pairs of one frame, for output channels below `ch_count`:
/// each output channel reads the asset channel of the same number, or the
/// asset's last channel when the asset has fewer; a pair (source sample,
/// destination sample) is kept when both lie in range.
pub open spec fn frame_pairs(
    src_base: int,
    dst_base: int,
    asset_channels: int,
    ch_count: int,
    samples_len: int,
    buf_len: int,
) -> Seq<(usize, usize)>
    decreases ch_count,
{
    if ch_count <= 0 {
        Seq::empty()
    } else {
        let ch = ch_count - 1;
        let src = src_base + earlier(ch, asset_channels - 1);
        let dst = dst_base + ch;
        frame_pairs(src_base, dst_base, asset_channels, ch_count - 1, samples_len, buf_len) + if src < samples_len
            && dst < buf_len {
            seq![(src as usize, dst as usize)]
        } else {
            Seq::empty()
        }
    }
}

/// The mixing pairs of the `n` frames from `first`, frame by frame. The
/// source index of a frame counts from the clip's start and the destination
/// index from the block's start, both in steps of the asset's channel count.
pub open spec fn span_pairs(
    clip_start: int,
    block_start: int,
    asset_channels: int,
    out_channels: int,
    samples_len: int,
    buf_len: int,
    first: int,
    n: int,
) -> Seq<(usize, usize)>
    decreases n,
{
    if n <= 0 {
        Seq::empty()
    } else {
        let frame = first + n - 1;
        span_pairs(clip_start, block_start, asset_channels, out_channels, samples_len, buf_len, first, n - 1)
            + frame_pairs(
            (frame - clip_start) * asset_channels,
            (frame - block_start) * asset_channels,
            asset_channels,
            out_channels,
            samples_len,
            buf_len,
        )
    }
}

/// The asset sample that output channel `c` reads at timeline frame `f`,
/// for a clip starting at `clip_start`: the frame's samples count from the
/// clip's start, and a channel past the asset's last reads the last.
pub open spec fn source_index(clip_start: int, asset_channels: int, f: int, c: int) -> int {
    (f - clip_start) * asset_channels + earlier(c, asset_channels - 1)
}

/// The block sample that output channel `c` writes at timeline frame `f`,
/// for a block starting at `block_start`: the frame's place counts from the
/// block's start, in steps of the asset's channel count.
pub open spec fn dest_index(block_start: int, asset_channels: int, f: int, c: int) -> int {
    (f - block_start) * asset_channels + c
}

/// `x` pairs, for one frame `f` of the `n` frames from `first` and one
/// output channel `c`, the asset sample played at `f` with the block
/// sample that `f` lands on.
pub open spec fn placed_pair(
    clip_start: int,
    block_start: int,
    asset_channels: int,
    out_channels: int,
    first: int,
    n: int,
    x: (usize, usize),
) -> bool {
    exists|f: int, c: int|
        #![trigger source_index(clip_start, asset_channels, f, c), dest_index(block_start, asset_channels, f, c)]
        first <= f < first + n && 0 <= c < out_channels
        && x.0 == source_index(clip_start, asset_channels, f, c)
        && x.1 == dest_index(block_start, asset_channels, f, c)
}

/// The pairs of one frame `f` are exactly those of its channels whose two
/// indices lie in range.
proof fn lemma_frame_pairs_members(cs: int, bs: int, ac: int, f: int, k: int, sl: int, bl: int)
    requires
        f >= cs,
        f >= bs,
        ac >= 1,
        sl <= usize::MAX,
        bl <= usize::MAX,
    ensures
        ({
            let fp = frame_pairs((f - cs) * ac, (f - bs) * ac, ac, k, sl, bl);
            &&& forall|i: int| #![trigger fp[i]] 0 <= i < fp.len()
                ==> placed_pair(cs, bs, ac, k, f, 1, fp[i]) && fp[i].0 < sl && fp[i].1 < bl
            &&& forall|c: int| 0 <= c < k && #[trigger] source_index(cs, ac, f, c) < sl && dest_index(bs, ac, f, c) < bl
                ==> fp.contains((source_index(cs, ac, f, c) as usize, dest_index(bs, ac, f, c) as usize))
        }),
    decreases k,
{
    let sb = (f - cs) * ac;
    let db = (f - bs) * ac;
    assert(sb >= 0 && db >= 0) by (nonlinear_arith)
        requires
            f >= cs,
            f >= bs,
            ac >= 1,
            sb == (f - cs) * ac,
            db == (f - bs) * ac;
    let fp = frame_pairs(sb, db, ac, k, sl, bl);
    if k > 0 {
        lemma_frame_pairs_members(cs, bs, ac, f, k - 1, sl, bl);
        let prev = frame_pairs(sb, db, ac, k - 1, sl, bl);
        let c0 = k - 1;
        let src = sb + earlier(c0, ac - 1);
        let dst = db + c0;
        assert(source_index(cs, ac, f, c0) == src);
        assert(dest_index(bs, ac, f, c0) == dst);
        let tail = if src < sl && dst < bl { seq![(src as usize, dst as usize)] } else { Seq::<(usize, usize)>::empty() };
        assert(fp == prev + tail);
        assert forall|i: int| #![trigger fp[i]] 0 <= i < fp.len()
            implies placed_pair(cs, bs, ac, k, f, 1, fp[i]) && fp[i].0 < sl && fp[i].1 < bl by {
            if i < prev.len() {
                assert(fp[i] == prev[i]);
                assert(placed_pair(cs, bs, ac, k - 1, f, 1, prev[i]));
                let (f1, c1) = choose|f1: int, c1: int|
                    #![trigger source_index(cs, ac, f1, c1), dest_index(bs, ac, f1, c1)]
                    f <= f1 < f + 1 && 0 <= c1 < k - 1
                    && prev[i].0 == source_index(cs, ac, f1, c1) && prev[i].1 == dest_index(bs, ac, f1, c1);
                assert(f <= f1 < f + 1 && 0 <= c1 < k && fp[i].0 == source_index(cs, ac, f1, c1)
                    && fp[i].1 == dest_index(bs, ac, f1, c1));
            } else {
                assert(fp[i] == (src as usize, dst as usize));
                assert(f <= f < f + 1 && 0 <= c0 < k && fp[i].0 == source_index(cs, ac, f, c0)
                    && fp[i].1 == dest_index(bs, ac, f, c0));
            }
        }
        assert forall|c: int| 0 <= c < k && #[trigger] source_index(cs, ac, f, c) < sl && dest_index(bs, ac, f, c) < bl
            implies fp.contains((source_index(cs, ac, f, c) as usize, dest_index(bs, ac, f, c) as usize)) by {
            if c < k - 1 {
                let i = choose|i: int| 0 <= i < prev.len()
                    && prev[i] == (source_index(cs, ac, f, c) as usize, dest_index(bs, ac, f, c) as usize);
                assert(fp[i] == prev[i]);
            } else {
                assert(fp[prev.len() as int] == (src as usize, dst as usize));
            }
        }
    }
}

/// The pairs of the `n` frames from `first` are exactly those of each of
/// these frames and each output channel whose two indices lie in range.
proof fn lemma_span_pairs_members(cs: int, bs: int, ac: int, oc: int, sl: int, bl: int, first: int, n: int)
    requires
        first >= cs,
        first >= bs,
        ac >= 1,
        sl <= usize::MAX,
        bl <= usize::MAX,
    ensures
        ({
            let sp = span_pairs(cs, bs, ac, oc, sl, bl, first, n);
            &&& forall|i: int| #![trigger sp[i]] 0 <= i < sp.len()
                ==> placed_pair(cs, bs, ac, oc, first, n, sp[i]) && sp[i].0 < sl && sp[i].1 < bl
            &&& forall|f: int, c: int| first <= f < first + n && 0 <= c < oc
                && #[trigger] source_index(cs, ac, f, c) < sl && #[trigger] dest_index(bs, ac, f, c) < bl
                ==> sp.contains((source_index(cs, ac, f, c) as usize, dest_index(bs, ac, f, c) as usize))
        }),
    decreases n,
{
    let sp = span_pairs(cs, bs, ac, oc, sl, bl, first, n);
    if n > 0 {
        lemma_span_pairs_members(cs, bs, ac, oc, sl, bl, first, n - 1);
        let prev = span_pairs(cs, bs, ac, oc, sl, bl, first, n - 1);
        let f0 = first + n - 1;
        lemma_frame_pairs_members(cs, bs, ac, f0, oc, sl, bl);
        let fp = frame_pairs((f0 - cs) * ac, (f0 - bs) * ac, ac, oc, sl, bl);
        assert(sp == prev + fp);
        assert forall|i: int| #![trigger sp[i]] 0 <= i < sp.len()
            implies placed_pair(cs, bs, ac, oc, first, n, sp[i]) && sp[i].0 < sl && sp[i].1 < bl by {
            if i < prev.len() {
                assert(sp[i] == prev[i]);
                assert(placed_pair(cs, bs, ac, oc, first, n - 1, prev[i]));
                let (f, c) = choose|f: int, c: int|
                    #![trigger source_index(cs, ac, f, c), dest_index(bs, ac, f, c)]
                    first <= f < first + (n - 1) && 0 <= c < oc
                    && prev[i].0 == source_index(cs, ac, f, c) && prev[i].1 == dest_index(bs, ac, f, c);
                assert(first <= f < first + n && 0 <= c < oc && sp[i].0 == source_index(cs, ac, f, c)
                    && sp[i].1 == dest_index(bs, ac, f, c));
            } else {
                let q = i - prev.len();
                assert(sp[i] == fp[q]);
                assert(placed_pair(cs, bs, ac, oc, f0, 1, fp[q]));
                let (f, c) = choose|f: int, c: int|
                    #![trigger source_index(cs, ac, f, c), dest_index(bs, ac, f, c)]
                    f0 <= f < f0 + 1 && 0 <= c < oc
                    && fp[q].0 == source_index(cs, ac, f, c) && fp[q].1 == dest_index(bs, ac, f, c);
                assert(first <= f < first + n && 0 <= c < oc && sp[i].0 == source_index(cs, ac, f, c)
                    && sp[i].1 == dest_index(bs, ac, f, c));
            }
        }
        assert forall|f: int, c: int| first <= f < first + n && 0 <= c < oc
            && #[trigger] source_index(cs, ac, f, c) < sl && #[trigger] dest_index(bs, ac, f, c) < bl
            implies sp.contains((source_index(cs, ac, f, c) as usize, dest_index(bs, ac, f, c) as usize)) by {
            let x = (source_index(cs, ac, f, c) as usize, dest_index(bs, ac, f, c) as usize);
            if f < f0 {
                let i = choose|i: int| 0 <= i < prev.len() && prev[i] == x;
                assert(sp[i] == prev[i]);
            } else {
                assert(fp.contains(x));
                let i = choose|i: int| 0 <= i < fp.len() && fp[i] == x;
                assert(sp[prev.len() + i] == fp[i]);
            }
        }
    } else {
        assert(sp.len() == 0);
    }
}

/// What a clip renders into a block: the frames it renders are those the
/// clip and the block share; every pair that `render_pairs` gives joins,
/// for one of these frames `f` and one output channel `c`, the asset
/// sample the clip plays at `f` (counted from the clip's start) with the
/// block sample of `f` (counted from the block's start), both in range;
/// and every such pair whose indices lie in range is given.
pub proof fn law_render_pairs_place(
    clip: AudioClip,
    asset_channels: u16,
    samples_len: usize,
    block_start: Tick,
    buf_len: usize,
    out_channels: u16,
)
    requires
        asset_channels > 0,
        out_channels > 0,
    ensures
        ({
            let (lo, n) = shared_frames(clip, block_start.0 as int, block_frames(buf_len, out_channels));
            let cs = clip.start.0 as int;
            let bs = block_start.0 as int;
            let ac = asset_channels as int;
            let pairs = span_pairs(cs, bs, ac, out_channels as int, samples_len as int, buf_len as int, lo, n);
            &&& n > 0 ==> bs <= lo && lo + n <= bs + block_frames(buf_len, out_channels)
                && cs <= lo && lo + n <= cs + clip.length.0
            &&& forall|i: int| #![trigger pairs[i]] 0 <= i < pairs.len()
                ==> placed_pair(cs, bs, ac, out_channels as int, lo, n, pairs[i])
                && pairs[i].0 < samples_len && pairs[i].1 < buf_len
            &&& forall|f: int, c: int| lo <= f < lo + n && 0 <= c < out_channels
                && #[trigger] source_index(cs, ac, f, c) < samples_len && #[trigger] dest_index(bs, ac, f, c) < buf_len
                ==> pairs.contains((source_index(cs, ac, f, c) as usize, dest_index(bs, ac, f, c) as usize))
        }),
{
    let (lo, n) = shared_frames(clip, block_start.0 as int, block_frames(buf_len, out_channels));
    lemma_span_pairs_members(clip.start.0 as int, block_start.0 as int, asset_channels as int, out_channels as int,
        samples_len as int, buf_len as int, lo, n);
}

/// The frames that a clip and a block share, as first frame and count.
pub open spec fn shared_frames(clip: AudioClip, block_start: int, block_frames: int) -> (int, int) {
    let lo = later(block_start, clip.start.0 as int);
    let hi = earlier(block_start + block_frames, clip.start.0 + clip.length.0);
    (lo, hi - lo)
}

/// The number of frames in a block of `buf_len` interleaved samples with
/// `channels` channels.
pub open spec fn block_frames(buf_len: usize, channels: u16) -> int {
    buf_len as int / channels as int
}

impl AudioClip {
    /// The samples to mix when this clip plays into a block of `buf_len`
    /// interleaved samples with `out_channels` channels, from an asset of
    /// `samples_len` interleaved samples with `asset_channels` channels:
    /// for each frame the clip and the block share, in order, and each
    /// output channel, the index of the source sample and of the
    /// destination sample, when both lie in range, written to `pairs`. The
    /// clip and the block must share a frame. `pairs` is cleared first, and
    /// grows only beyond the capacity it already has when it needs more.
    pub fn render_pairs(
        &self,
        asset_channels: u16,
        samples_len: usize,
        block_start: Tick,
        buf_len: usize,
        out_channels: u16,
        pairs: &mut Vec<(usize, usize)>,
    )
        requires
            out_channels > 0,
            asset_channels > 0,
            block_start.0 + block_frames(buf_len, out_channels) <= u64::MAX,
            self.start.0 + self.length.0 <= u64::MAX,
            shared_frames(*self, block_start.0 as int, block_frames(buf_len, out_channels)).1 > 0,
            self.length.0 * asset_channels + out_channels <= usize::MAX,
            (block_frames(buf_len, out_channels)) * asset_channels + out_channels <= usize::MAX,
        ensures
            ({
                let (lo, n) = shared_frames(*self, block_start.0 as int, block_frames(buf_len, out_channels));
                final(pairs)@ == span_pairs(self.start.0 as int, block_start.0 as int, asset_channels as int, out_channels as int,
                    samples_len as int, buf_len as int, lo, n)
            }),
    {
        let block_len = Tick::from_frames(buf_len / (out_channels as usize));
        let block_end = block_start.add(block_len);
        let clip_end = self.start.add(self.length);
        let overlap_start = block_start.max(self.start);
        let overlap_end = block_end.min(clip_end);
        let ghost lo = overlap_start.0 as int;
        let ac = asset_channels as usize;
        let oc = out_channels as usize;
        pairs.clear();
        let mut frame: u64 = overlap_start.0;
        while frame < overlap_end.0
            invariant
                lo <= frame <= overlap_end.0,
                lo == later(block_start.0 as int, self.start.0 as int),
                overlap_end.0 == earlier(block_start.0 + block_frames(buf_len, out_channels), self.start.0 + self.length.0),
                ac == asset_channels,
                oc == out_channels,
                ac > 0,
                self.length.0 * asset_channels + out_channels <= usize::MAX,
                (block_frames(buf_len, out_channels)) * asset_channels + out_channels <= usize::MAX,
                pairs@ == span_pairs(self.start.0 as int, block_start.0 as int, asset_channels as int, out_channels as int,
                    samples_len as int, buf_len as int, lo, frame - lo),
            decreases overlap_end.0 - frame,
        {
            proof {
                assert(self.length.0 <= self.length.0 * asset_channels) by (nonlinear_arith)
                    requires
                        asset_channels > 0;
                assert(block_frames(buf_len, out_channels) <= block_frames(buf_len, out_channels) * asset_channels)
                    by (nonlinear_arith)
                    requires
                        asset_channels > 0,
                        block_frames(buf_len, out_channels) >= 0;
                assert((frame - self.start.0) * asset_channels <= self.length.0 * asset_channels) by (nonlinear_arith)
                    requires
                        frame - self.start.0 <= self.length.0,
                        asset_channels > 0,
                        frame >= self.start.0;
                assert((frame - block_start.0) * asset_channels <= (block_frames(buf_len, out_channels)) * asset_channels)
                    by (nonlinear_arith)
                    requires
                        frame - block_start.0 <= block_frames(buf_len, out_channels),
                        frame >= block_start.0;
            }
            let src_base = ((frame - self.start.0) as usize) * ac;
            let dst_base = ((frame - block_start.0) as usize) * ac;
            let ghost before = pairs@;
            let mut ch: usize = 0;
            while ch < oc
                invariant
                    0 <= ch <= oc,
                    ac == asset_channels,
                    ac > 0,
                    oc == out_channels,
                    src_base + oc <= usize::MAX,
                    dst_base + oc <= usize::MAX,
                    pairs@ == before + frame_pairs(src_base as int, dst_base as int, asset_channels as int, ch as int,
                        samples_len as int, buf_len as int),
                decreases oc - ch,
            {
                let src_ch = if ch <= ac - 1 { ch } else { ac - 1 };
                let src = src_base + src_ch;
                let dst = dst_base + ch;
                if src < samples_len && dst < buf_len {
                    pairs.push((src, dst));
                }
                ch = ch + 1;
                proof {
                    assert(pairs@ =~= before + frame_pairs(src_base as int, dst_base as int, asset_channels as int, ch as int,
                        samples_len as int, buf_len as int));
                }
            }
            frame = frame + 1;
        }
    }
}

} // verus!
