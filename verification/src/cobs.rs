//! What the decoder promises of whole frames: it inverts COBS encoding, and it does not care
//! how the bytes of a frame are split into pushes.
use vstd::prelude::*;
use crate::decoder::{feed_step, push_steps, DecoderState, Step};

verus! {

/// The index of the first `b` in `s`, or `s.len()` where `s` holds no `b`.
pub open spec fn first_index(s: Seq<u8>, b: u8) -> int
    decreases s.len(),
{
    if s.len() == 0 {
        0
    } else if s[0] == b {
        0
    } else {
        1 + first_index(s.drop_first(), b)
    }
}

/// Where `first_index` lies and what it finds.
pub proof fn lemma_first_index(s: Seq<u8>, b: u8)
    ensures
        0 <= first_index(s, b) <= s.len(),
        forall|i: int| 0 <= i < first_index(s, b) ==> s[i] != b,
        first_index(s, b) < s.len() ==> s[first_index(s, b)] == b,
    decreases s.len(),
{
    if s.len() > 0 && s[0] != b {
        lemma_first_index(s.drop_first(), b);
        assert forall|i: int| 0 <= i < first_index(s, b) implies s[i] != b by {
            if i > 0 {
                assert(s[i] == s.drop_first()[i - 1]);
            }
        }
    }
}

/// The COBS encoding of the bytes of one frame, without the zero that closes it.
///
/// Each run of non-zero bytes (the first one, and each one that follows a zero) comes after a
/// code byte that holds its length plus one; the zeros themselves are left out.
pub open spec fn cobs_encode(data: Seq<u8>) -> Seq<u8>
    decreases data.len(),
{
    let k = first_index(data, 0);
    if k < data.len() {
        proof {
            lemma_first_index(data, 0);
        }
        seq![(k + 1) as u8] + data.subrange(0, k) + cobs_encode(data.subrange(k + 1, data.len() as int))
    } else {
        seq![(k + 1) as u8] + data
    }
}

/// Whether the 255 bytes from index `i` on include a zero.
pub open spec fn zero_within(data: Seq<u8>, i: int) -> bool {
    exists|k: int| i <= k < i + 255 && data[k] == 0
}

/// Whether every run of non-zero bytes in `data` is short enough for its length plus one to
/// fit in a code byte: every 255 consecutive bytes include a zero.
pub open spec fn runs_fit(data: Seq<u8>) -> bool {
    forall|i: int| 0 <= i && i + 255 <= data.len() ==> #[trigger] zero_within(data, i)
}

proof fn lemma_runs_fit_parts(data: Seq<u8>)
    requires
        runs_fit(data),
    ensures
        first_index(data, 0) < 255,
        first_index(data, 0) < data.len() ==> runs_fit(
            data.subrange(first_index(data, 0) + 1, data.len() as int),
        ),
{
    lemma_first_index(data, 0);
    let k = first_index(data, 0);
    if k >= 255 {
        assert(zero_within(data, 0));
        let m = choose|m: int| 0 <= m < 255 && data[m] == 0;
        assert(data[m] != 0);
    }
    if k < data.len() {
        let suffix = data.subrange(k + 1, data.len() as int);
        assert forall|i: int| 0 <= i && i + 255 <= suffix.len() implies #[trigger] zero_within(
            suffix,
            i,
        ) by {
            assert(zero_within(data, i + k + 1));
            let m = choose|m: int| i + k + 1 <= m < i + k + 1 + 255 && data[m] == 0;
            assert(suffix[m - k - 1] == 0);
        }
    }
}

/// Reading a run of data bytes that ends where the next code byte is due only appends them.
proof fn lemma_data_run(s: DecoderState, run: Seq<u8>, rest: Seq<u8>)
    requires
        s.parsing,
        forall|k: int| 0 <= k < run.len() ==> run[k] != 0,
        s.pointer == s.buffer.len() + run.len() + 1,
    ensures
        push_steps(s, run + rest) == push_steps(
            DecoderState { buffer: s.buffer + run, pointer: s.pointer, parsing: true },
            rest,
        ),
    decreases run.len(),
{
    if run.len() == 0 {
        assert(run + rest =~= rest);
        assert(s.buffer + run =~= s.buffer);
        assert(s == DecoderState { buffer: s.buffer + run, pointer: s.pointer, parsing: true });
    } else {
        let t = DecoderState { buffer: s.buffer.push(run[0]), pointer: s.pointer, parsing: true };
        assert((run + rest)[0] == run[0]);
        assert(feed_step(s, run[0]) == (t, Step::Pending));
        assert((run + rest).drop_first() =~= run.drop_first() + rest);
        lemma_data_run(t, run.drop_first(), rest);
        assert(t.buffer + run.drop_first() =~= s.buffer + run);
    }
}

/// Once the code byte of `data`'s first run has been read, the rest of the encoding and the
/// closing zero complete the frame with `data` appended to what was decoded before.
proof fn lemma_frame_tail(s: DecoderState, data: Seq<u8>, extra: Seq<u8>)
    requires
        s.parsing,
        runs_fit(data),
        s.pointer == s.buffer.len() + first_index(data, 0) + 1,
    ensures
        push_steps(s, cobs_encode(data).drop_first() + seq![0u8] + extra) == (
            DecoderState::initial(),
            Step::Frame(s.buffer + data),
        ),
    decreases data.len(),
{
    lemma_first_index(data, 0);
    lemma_runs_fit_parts(data);
    let k = first_index(data, 0);
    let run = data.subrange(0, k);
    if k < data.len() {
        let suffix = data.subrange(k + 1, data.len() as int);
        let tail = cobs_encode(suffix);
        assert(cobs_encode(data).drop_first() =~= run + tail);
        let stream = cobs_encode(data).drop_first() + seq![0u8] + extra;
        let after = tail + seq![0u8] + extra;
        assert(stream =~= run + after);
        lemma_data_run(s, run, after);
        let s1 = DecoderState { buffer: s.buffer + run, pointer: s.pointer, parsing: true };
        lemma_first_index(suffix, 0);
        lemma_runs_fit_parts(suffix);
        let k2 = first_index(suffix, 0);
        assert(tail[0] == (k2 + 1) as u8);
        assert(after[0] == tail[0]);
        let s2 = DecoderState {
            buffer: s1.buffer.push(0),
            pointer: s1.buffer.len() + 1 + (k2 + 1),
            parsing: true,
        };
        assert(feed_step(s1, after[0]) == (s2, Step::Pending));
        assert(after.drop_first() =~= tail.drop_first() + seq![0u8] + extra);
        lemma_frame_tail(s2, suffix, extra);
        assert(s2.buffer + suffix =~= s.buffer + data);
    } else {
        assert(run =~= data);
        assert(cobs_encode(data).drop_first() =~= data);
        let after = seq![0u8] + extra;
        assert(cobs_encode(data).drop_first() + seq![0u8] + extra =~= data + after);
        lemma_data_run(s, data, after);
        let s1 = DecoderState { buffer: s.buffer + data, pointer: s.pointer, parsing: true };
        assert(after[0] == 0);
        assert(feed_step(s1, 0) == (DecoderState::initial(), Step::Frame(s.buffer + data)));
    }
}

/// A decoder that waits for the first code byte of a frame, and is pushed the COBS encoding
/// of a frame, the closing zero and any further bytes, reports exactly that frame and waits
/// for the next one.
pub proof fn lemma_decodes_encoded_frame(s: DecoderState, data: Seq<u8>, extra: Seq<u8>)
    requires
        !s.parsing,
        runs_fit(data),
    ensures
        push_steps(s, cobs_encode(data) + seq![0u8] + extra) == (
            DecoderState::initial(),
            Step::Frame(data),
        ),
{
    lemma_first_index(data, 0);
    lemma_runs_fit_parts(data);
    let k = first_index(data, 0);
    let stream = cobs_encode(data) + seq![0u8] + extra;
    assert(stream[0] == (k + 1) as u8);
    let s1 = DecoderState { buffer: Seq::empty(), pointer: k + 1, parsing: true };
    assert(feed_step(s, stream[0]) == (s1, Step::Pending));
    assert(stream.drop_first() =~= cobs_encode(data).drop_first() + seq![0u8] + extra);
    lemma_frame_tail(s1, data, extra);
    assert(s1.buffer + data =~= data);
}

/// Once pushing bytes completes or rejects a frame, the decoder is as it was new: it waits for
/// the first code byte of the next frame and holds nothing.
pub proof fn lemma_finished_frame_resets(s: DecoderState, data: Seq<u8>)
    ensures
        !(push_steps(s, data).1 is Pending) ==> push_steps(s, data).0 == DecoderState::initial(),
    decreases data.len(),
{
    if data.len() > 0 {
        lemma_finished_frame_resets(feed_step(s, data[0]).0, data.drop_first());
    }
}

/// Frames that follow one another decode one by one: after any push that completes or rejects
/// a frame, pushing the COBS encoding of the next frame, its closing zero and any further bytes
/// reports exactly that frame.
pub proof fn lemma_decodes_next_frame(
    s: DecoderState,
    before: Seq<u8>,
    data: Seq<u8>,
    extra: Seq<u8>,
)
    requires
        !(push_steps(s, before).1 is Pending),
        runs_fit(data),
    ensures
        push_steps(push_steps(s, before).0, cobs_encode(data) + seq![0u8] + extra).1
            == Step::Frame(data),
{
    lemma_finished_frame_resets(s, before);
    lemma_decodes_encoded_frame(DecoderState::initial(), data, extra);
}

/// Only a zero byte completes or rejects a frame.
pub proof fn lemma_only_zero_ends_frame(s: DecoderState, byte: u8)
    ensures
        byte != 0 ==> feed_step(s, byte).1 is Pending,
{
}

/// A decoder that waits for the first code byte of a frame holds no decoded bytes.
pub proof fn lemma_waiting_decoder_holds_nothing(s: DecoderState, byte: u8)
    ensures
        !feed_step(s, byte).0.parsing ==> feed_step(s, byte).0.buffer.len() == 0,
{
}

/// Pushing `a` and then `b` does what pushing `a + b` does, where `a` leaves the frame
/// incomplete; where `a` completes or rejects a frame, the bytes of `b` are never read.
pub proof fn lemma_push_in_pieces(s: DecoderState, a: Seq<u8>, b: Seq<u8>)
    ensures
        push_steps(s, a + b) == (if push_steps(s, a).1 is Pending {
            push_steps(push_steps(s, a).0, b)
        } else {
            push_steps(s, a)
        }),
    decreases a.len(),
{
    if a.len() == 0 {
        assert(a + b =~= b);
    } else {
        assert((a + b)[0] == a[0]);
        assert((a + b).drop_first() =~= a.drop_first() + b);
        let t = feed_step(s, a[0]).0;
        lemma_push_in_pieces(t, a.drop_first(), b);
    }
}

/// A frame is completed or rejected only by a zero byte: where pushing `data` does either,
/// `data` holds a zero, and the bytes before its first zero leave the frame incomplete.
pub proof fn lemma_frames_end_at_zero(s: DecoderState, data: Seq<u8>)
    ensures
        !(push_steps(s, data).1 is Pending) ==> first_index(data, 0) < data.len()
            && push_steps(s, data.subrange(0, first_index(data, 0))).1 is Pending,
    decreases data.len(),
{
    lemma_first_index(data, 0);
    if data.len() > 0 && data[0] != 0 {
        let t = feed_step(s, data[0]).0;
        assert(feed_step(s, data[0]).1 is Pending);
        lemma_frames_end_at_zero(t, data.drop_first());
        let k = first_index(data, 0);
        if k < data.len() {
            let prefix = data.subrange(0, k);
            assert(prefix[0] == data[0]);
            assert(prefix.drop_first() =~= data.drop_first().subrange(0, k - 1));
        }
    } else if data.len() > 0 {
        assert(data.subrange(0, 0) =~= Seq::<u8>::empty());
    }
}

/// The first byte of an encoding is its code byte, which counts the first run.
proof fn lemma_encode_head(e: Seq<u8>)
    ensures
        cobs_encode(e).len() >= 1,
        cobs_encode(e)[0] == (first_index(e, 0) + 1) as u8,
{
    lemma_first_index(e, 0);
}

/// Putting a non-zero byte in front of `e` puts it in front of the first run.
proof fn lemma_encode_cons(x: u8, e: Seq<u8>)
    requires
        x != 0,
    ensures
        first_index(seq![x] + e, 0) == first_index(e, 0) + 1,
        cobs_encode(seq![x] + e).len() == cobs_encode(e).len() + 1,
        cobs_encode(seq![x] + e).drop_first() == seq![x] + cobs_encode(e).drop_first(),
{
    let f = seq![x] + e;
    assert(f[0] == x);
    assert(f.drop_first() =~= e);
    lemma_first_index(e, 0);
    lemma_first_index(f, 0);
    let k = first_index(e, 0);
    if k < e.len() {
        assert(f.subrange(0, k + 1) =~= seq![x] + e.subrange(0, k));
        assert(f.subrange(k + 2, f.len() as int) =~= e.subrange(k + 1, e.len() as int));
        assert(cobs_encode(f).drop_first() =~= seq![x] + cobs_encode(e).drop_first());
    } else {
        assert(cobs_encode(f).drop_first() =~= seq![x] + cobs_encode(e).drop_first());
    }
}

/// Putting a zero in front of `e` puts an empty run and its code byte in front.
proof fn lemma_encode_zero_cons(e: Seq<u8>)
    ensures
        first_index(seq![0u8] + e, 0) == 0,
        cobs_encode(seq![0u8] + e) == seq![1u8] + cobs_encode(e),
{
    let f = seq![0u8] + e;
    assert(f[0] == 0);
    assert(f.subrange(0, 0) =~= Seq::<u8>::empty());
    assert(f.subrange(1, f.len() as int) =~= e);
    assert(cobs_encode(f) =~= seq![1u8] + cobs_encode(e));
}

proof fn lemma_runs_fit_cons(x: u8, e: Seq<u8>)
    requires
        runs_fit(e),
        x == 0 || first_index(e, 0) + 1 < 255,
    ensures
        runs_fit(seq![x] + e),
{
    let f = seq![x] + e;
    assert(f.drop_first() =~= e);
    lemma_first_index(f, 0);
    assert forall|i: int| 0 <= i && i + 255 <= f.len() implies #[trigger] zero_within(f, i) by {
        if i == 0 {
            if x == 0 {
                assert(f[0] == 0);
            } else {
                assert(f[first_index(f, 0)] == 0);
            }
        } else {
            assert(zero_within(e, i - 1));
            let m = choose|m: int| i - 1 <= m < i - 1 + 255 && e[m] == 0;
            assert(f[m + 1] == 0);
        }
    }
}

/// A decoder that can never be at a code byte again reports no frame.
proof fn lemma_no_code_due_no_frame(s: DecoderState, t: Seq<u8>)
    requires
        s.parsing,
        s.pointer <= s.buffer.len(),
    ensures
        !(push_steps(s, t).1 is Frame),
    decreases t.len(),
{
    if t.len() > 0 && t[0] != 0 {
        lemma_no_code_due_no_frame(feed_step(s, t[0]).0, t.drop_first());
    }
}

/// Where a decoder that is `k` data bytes away from a code byte reports `d`, `d` extends what it
/// held by some `e` whose first run is those `k` bytes, and the bytes it read are the rest of the
/// COBS encoding of `e` and the closing zero.
proof fn lemma_frame_tail_sound(s: DecoderState, k: int, t: Seq<u8>, d: Seq<u8>) -> (e: Seq<u8>)
    requires
        s.parsing,
        0 <= k < 255,
        s.pointer == s.buffer.len() + k + 1,
        push_steps(s, t).1 == Step::Frame(d),
    ensures
        d == s.buffer + e,
        runs_fit(e),
        first_index(e, 0) == k,
        cobs_encode(e).len() <= t.len(),
        t.subrange(0, cobs_encode(e).len() as int) == cobs_encode(e).drop_first() + seq![0u8],
    decreases t.len(),
{
    let x = t[0];
    let rest = t.drop_first();
    if x == 0 {
        let e = Seq::<u8>::empty();
        assert(s.buffer + e =~= s.buffer);
        assert(cobs_encode(e) =~= seq![1u8]);
        assert(t.subrange(0, 1) =~= seq![0u8]);
        assert(cobs_encode(e).drop_first() + seq![0u8] =~= seq![0u8]);
        e
    } else if k > 0 {
        let s1 = DecoderState { buffer: s.buffer.push(x), pointer: s.pointer, parsing: true };
        assert(feed_step(s, x) == (s1, Step::Pending));
        let e1 = lemma_frame_tail_sound(s1, k - 1, rest, d);
        let e = seq![x] + e1;
        lemma_encode_cons(x, e1);
        lemma_runs_fit_cons(x, e1);
        assert(s1.buffer + e1 =~= s.buffer + e);
        assert(t.subrange(0, cobs_encode(e).len() as int) =~= seq![x] + rest.subrange(
            0,
            cobs_encode(e1).len() as int,
        ));
        assert(t.subrange(0, cobs_encode(e).len() as int) =~= cobs_encode(e).drop_first() + seq![
            0u8,
        ]);
        e
    } else {
        let s1 = DecoderState {
            buffer: s.buffer.push(0),
            pointer: s.buffer.len() + 1 + x,
            parsing: true,
        };
        assert(feed_step(s, x) == (s1, Step::Pending));
        let e1 = lemma_frame_tail_sound(s1, x - 1, rest, d);
        let e = seq![0u8] + e1;
        lemma_encode_zero_cons(e1);
        lemma_encode_head(e1);
        lemma_runs_fit_cons(0, e1);
        assert(s1.buffer + e1 =~= s.buffer + e);
        assert(cobs_encode(e).drop_first() =~= cobs_encode(e1));
        assert(cobs_encode(e1) =~= seq![x] + cobs_encode(e1).drop_first());
        assert(t.subrange(0, cobs_encode(e).len() as int) =~= seq![x] + rest.subrange(
            0,
            cobs_encode(e1).len() as int,
        ));
        assert(t.subrange(0, cobs_encode(e).len() as int) =~= cobs_encode(e).drop_first() + seq![
            0u8,
        ]);
        e
    }
}

/// A frame is reported only for exactly its COBS encoding: where a decoder that waits for a
/// frame reads `stream` and reports `d`, `stream` starts with the COBS encoding of `d` and the
/// closing zero, and no run of `d` is too long to encode. A zero anywhere else, in any run,
/// rejects the frame instead.
pub proof fn lemma_frame_is_its_encoding(s: DecoderState, stream: Seq<u8>, d: Seq<u8>)
    requires
        !s.parsing,
        push_steps(s, stream).1 == Step::Frame(d),
    ensures
        runs_fit(d),
        cobs_encode(d).len() < stream.len(),
        stream.subrange(0, cobs_encode(d).len() + 1int) == cobs_encode(d).push(0),
{
    let c = stream[0];
    let s1 = DecoderState { buffer: Seq::empty(), pointer: c as int, parsing: true };
    assert(feed_step(s, c) == (s1, Step::Pending));
    let rest = stream.drop_first();
    if c == 0 {
        lemma_no_code_due_no_frame(s1, rest);
    } else {
        let e = lemma_frame_tail_sound(s1, c - 1, rest, d);
        assert(d =~= e);
        lemma_encode_head(d);
        assert(stream.subrange(0, cobs_encode(d).len() + 1int) =~= seq![c] + rest.subrange(
            0,
            cobs_encode(d).len() as int,
        ));
        assert(cobs_encode(d) =~= seq![c] + cobs_encode(d).drop_first());
        assert(stream.subrange(0, cobs_encode(d).len() + 1int) =~= cobs_encode(d).push(0));
    }
}

} // verus!
