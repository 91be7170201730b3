//! Dual-leg audio buffering and mixing.
//!
//! Each call has two audio legs (inbound and outbound). Media events carry a
//! timestamp and a payload of mu-law samples; gaps in the timestamps are
//! filled with silence so the two legs stay aligned on wall-clock time. Once
//! both legs hold enough audio, the common prefix is drained and interleaved
//! into one mixed frame.

use vstd::prelude::*;

use crate::twilio_response::EventMedia;

verus! {

/// Byte value that represents silence in the mu-law encoding.
pub const MULAW_SILENCE: u8 = 0xff;

/// Bytes of audio per millisecond (8 kHz sample rate, one byte per sample).
pub const MULAW_BYTES_PER_MS: usize = 8;

/// Nominal duration of one media chunk, in milliseconds.
pub const TWILIO_MS_PER_CHUNK: usize = 20;

/// Number of nominal chunks each leg must hold before a mix is produced.
pub const MIN_TWILIO_CHUNKS_TO_MIX: usize = 20;

/// Minimum number of buffered bytes per leg that triggers a flush.
pub const MIN_MIX_BYTES: usize = MIN_TWILIO_CHUNKS_TO_MIX * TWILIO_MS_PER_CHUNK * MULAW_BYTES_PER_MS;

/// Per-call buffering state: one byte buffer and one last-seen timestamp per leg.
pub struct BufferData {
    pub inbound_buffer: Vec<u8>,
    pub outbound_buffer: Vec<u8>,
    pub inbound_last_timestamp: u32,
    pub outbound_last_timestamp: u32,
}

/// Milliseconds of audio lost between the previous chunk and the current one:
/// the time beyond the expected next-chunk boundary, normalized to zero when
/// the timestamp arrives at or before that boundary.
pub open spec fn gap_ms(current: u32, previous: u32) -> int {
    if current < previous + TWILIO_MS_PER_CHUNK {
        0
    } else {
        current - (previous + TWILIO_MS_PER_CHUNK)
    }
}

/// `n` bytes of silence.
pub open spec fn silence_seq(n: int) -> Seq<u8> {
    Seq::new(n as nat, |i: int| MULAW_SILENCE)
}

/// A leg's buffer after silence padding for the given timestamps.
pub open spec fn padded(buf: Seq<u8>, current: u32, previous: u32) -> Seq<u8> {
    buf + silence_seq(MULAW_BYTES_PER_MS * gap_ms(current, previous))
}

/// Appends silence covering the time lost between `previous_timestamp` and
/// `current_timestamp`, so that the buffer stays aligned with wall-clock time.
/// A timestamp at or before the expected boundary inserts nothing.
pub fn pad_with_silence(buffer: &mut Vec<u8>, current_timestamp: u32, previous_timestamp: u32)
    ensures
        final(buffer)@ == padded(old(buffer)@, current_timestamp, previous_timestamp),
{
    let time_lost: u64 = if (current_timestamp as u64) < previous_timestamp as u64
        + TWILIO_MS_PER_CHUNK as u64 {
        0
    } else {
        current_timestamp as u64 - (previous_timestamp as u64 + TWILIO_MS_PER_CHUNK as u64)
    };
    assert(time_lost == gap_ms(current_timestamp, previous_timestamp));
    let total: u64 = MULAW_BYTES_PER_MS as u64 * time_lost;
    let mut i: u64 = 0;
    while i < total
        invariant
            i <= total,
            buffer@ == old(buffer)@ + silence_seq(i as int),
            total == MULAW_BYTES_PER_MS * gap_ms(current_timestamp, previous_timestamp),
        decreases total - i,
    {
        buffer.push(MULAW_SILENCE);
        assert(buffer@ =~= old(buffer)@ + silence_seq(i + 1));
        i = i + 1;
    }
    assert(buffer@ =~= padded(old(buffer)@, current_timestamp, previous_timestamp));
}

/// Appends all of `src` to `dst`.
fn append_bytes(dst: &mut Vec<u8>, src: &Vec<u8>)
    ensures
        final(dst)@ == old(dst)@ + src@,
{
    let mut k: usize = 0;
    while k < src.len()
        invariant
            k <= src@.len(),
            dst@ == old(dst)@ + src@.take(k as int),
        decreases src@.len() - k,
    {
        dst.push(src[k]);
        assert(dst@ =~= old(dst)@ + src@.take(k + 1));
        k = k + 1;
    }
    assert(dst@ =~= old(dst)@ + src@);
}

/// Whether `c` is a decimal digit.
pub open spec fn is_dec_digit(c: char) -> bool {
    48 <= c as int <= 57
}

/// The numeric value of a decimal digit.
pub open spec fn digit_val(c: char) -> int {
    c as int - 48
}

/// Whether every character of `s` is a decimal digit.
pub open spec fn all_dec_digits(s: Seq<char>) -> bool {
    forall|i: int| 0 <= i < s.len() ==> is_dec_digit(#[trigger] s[i])
}

/// The value of `s` read as a decimal numeral, most significant digit first.
pub open spec fn dec_val(s: Seq<char>) -> int
    decreases s.len(),
{
    if s.len() == 0 {
        0
    } else {
        dec_val(s.drop_last()) * 10 + digit_val(s.last())
    }
}

/// What parsing a timestamp yields: the decimal value of `s`, provided `s` is
/// a nonempty string of digits whose value fits in a `u32`; nothing otherwise.
pub open spec fn parse_u32_of(s: Seq<char>) -> Option<u32> {
    if s.len() > 0 && all_dec_digits(s) && dec_val(s) <= u32::MAX {
        Some(dec_val(s) as u32)
    } else {
        None
    }
}

/// `10 ^ n`.
pub open spec fn pow10(n: nat) -> int
    decreases n,
{
    if n == 0 {
        1
    } else {
        10 * pow10((n - 1) as nat)
    }
}

proof fn lemma_pow10_pos(n: nat)
    ensures
        pow10(n) >= 1,
    decreases n,
{
    if n > 0 {
        lemma_pow10_pos((n - 1) as nat);
    }
}

proof fn lemma_dec_val_nonneg(s: Seq<char>)
    requires
        all_dec_digits(s),
    ensures
        dec_val(s) >= 0,
    decreases s.len(),
{
    if s.len() > 0 {
        assert(all_dec_digits(s.drop_last())) by {
            assert(forall|i: int|
                0 <= i < s.len() - 1 ==> s.drop_last()[i] == #[trigger] s[i]);
        }
        lemma_dec_val_nonneg(s.drop_last());
    }
}

/// Reading a numeral splits at any point: the prefix's value is scaled by one
/// power of ten per remaining digit.
proof fn lemma_dec_val_split(a: Seq<char>, b: Seq<char>)
    ensures
        dec_val(a + b) == dec_val(a) * pow10(b.len()) + dec_val(b),
    decreases b.len(),
{
    if b.len() == 0 {
        assert(a + b =~= a);
    } else {
        let b1 = b.drop_last();
        lemma_dec_val_split(a, b1);
        assert((a + b).drop_last() =~= a + b1);
        assert((a + b).last() == b.last());
        assert(dec_val(a + b) == (dec_val(a) * pow10(b1.len()) + dec_val(b1)) * 10 + digit_val(
            b.last(),
        ));
        assert(dec_val(a) * pow10(b1.len()) * 10 == dec_val(a) * pow10(b.len())) by (nonlinear_arith)
            requires
                pow10(b.len()) == 10 * pow10(b1.len()),
                b1.len() == b.len() - 1,
        ;
    }
}

/// If a proper prefix of an all-digit numeral already exceeds `bound`, the
/// whole numeral does too.
proof fn lemma_dec_val_prefix_exceeds(s: Seq<char>, i: int, bound: int)
    requires
        all_dec_digits(s),
        0 <= i <= s.len(),
        bound >= 0,
        dec_val(s.take(i)) > bound,
    ensures
        dec_val(s) > bound,
{
    let a = s.take(i);
    let b = s.skip(i);
    assert(s =~= a + b);
    assert(all_dec_digits(b)) by {
        assert(forall|j: int| 0 <= j < b.len() ==> b[j] == #[trigger] s[j + i]);
    }
    lemma_dec_val_split(a, b);
    lemma_dec_val_nonneg(b);
    lemma_pow10_pos(b.len());
    assert(dec_val(a) * pow10(b.len()) >= dec_val(a)) by (nonlinear_arith)
        requires
            dec_val(a) > 0,
            pow10(b.len()) >= 1,
    ;
}

/// Parses a string of decimal digits as a `u32`. Returns nothing when the
/// string is empty, holds a non-digit character, or names a value that does
/// not fit in a `u32`.
pub fn parse_u32(s: &String) -> (r: Option<u32>)
    ensures
        r == parse_u32_of(s@),
{
    let st: &str = s.as_str();
    let n = st.unicode_len();
    if n == 0 {
        return None;
    }
    let mut acc: u64 = 0;
    let mut i: usize = 0;
    while i < n
        invariant
            st@ == s@,
            n == s@.len(),
            0 < n <= usize::MAX,
            i <= n,
            all_dec_digits(s@.take(i as int)),
            acc == dec_val(s@.take(i as int)),
            acc <= u32::MAX,
        decreases n - i,
    {
        let c = st.get_char(i);
        let d = c as u32;
        if d < 48 || d > 57 {
            assert(!is_dec_digit(s@[i as int]));
            return None;
        }
        let next: u64 = acc * 10 + (d - 48) as u64;
        assert(s@.take(i + 1).drop_last() =~= s@.take(i as int));
        assert(s@.take(i + 1).last() == s@[i as int]);
        if next > u32::MAX as u64 {
            proof {
                assert(all_dec_digits(s@.take(i + 1)));
                if all_dec_digits(s@) {
                    lemma_dec_val_prefix_exceeds(s@, i + 1, u32::MAX as int);
                }
            }
            return None;
        }
        acc = next;
        i = i + 1;
    }
    assert(s@.take(i as int) =~= s@);
    Some(acc as u32)
}

/// What standard base64 decoding yields on `s`: the decoded bytes when `s` is
/// a valid base64 string, nothing otherwise. Both are functions of the string
/// alone.
pub uninterp spec fn base64_decode_of(s: Seq<char>) -> Option<Seq<u8>>;

/// Relies on base64::decode: decodes a standard-alphabet base64 string to the
/// bytes it encodes, failing exactly on strings that are not valid base64;
/// the outcome depends on the input string alone.
#[verifier::external_body]
fn base64_decode(s: &String) -> (r: Option<Vec<u8>>)
    ensures
        r is Some <==> base64_decode_of(s@) is Some,
        r matches Some(v) ==> base64_decode_of(s@) == Some(v@),
{
    base64::decode(s.as_str()).ok()
}

/// The buffering state of one call, abstractly: the bytes held for each leg
/// and the last-seen timestamp of each leg.
#[verifier::ext_equal]
pub ghost struct BufferModel {
    pub inbound: Seq<u8>,
    pub outbound: Seq<u8>,
    pub inbound_last: u32,
    pub outbound_last: u32,
}

impl BufferData {
    /// The abstract state this buffer holds.
    pub open spec fn model(&self) -> BufferModel {
        BufferModel {
            inbound: self.inbound_buffer@,
            outbound: self.outbound_buffer@,
            inbound_last: self.inbound_last_timestamp,
            outbound_last: self.outbound_last_timestamp,
        }
    }

    /// Fresh buffering state: both legs empty, both timestamps at the session start.
    pub fn new() -> (b: Self)
        ensures
            b.model() == init_model(),
    {
        let b = BufferData {
            inbound_buffer: Vec::new(),
            outbound_buffer: Vec::new(),
            inbound_last_timestamp: 0,
            outbound_last_timestamp: 0,
        };
        assert(b.model() =~= init_model());
        b
    }
}

/// The abstract state of a fresh call: empty legs, timestamps at zero.
pub open spec fn init_model() -> BufferModel {
    BufferModel { inbound: Seq::empty(), outbound: Seq::empty(), inbound_last: 0, outbound_last: 0 }
}

/// One media event, abstractly: its track name, timestamp, and decoded payload.
pub ghost struct MediaModel {
    pub track: Seq<char>,
    pub ts: u32,
    pub payload: Seq<u8>,
}

/// The buffering state after padding and appending one media event's payload
/// to the leg its track names. An event naming neither leg changes nothing.
pub open spec fn step_append(m: BufferModel, e: MediaModel) -> BufferModel {
    if e.track == "inbound"@ {
        BufferModel {
            inbound: padded(m.inbound, e.ts, m.inbound_last) + e.payload,
            inbound_last: e.ts,
            ..m
        }
    } else if e.track == "outbound"@ {
        BufferModel {
            outbound: padded(m.outbound, e.ts, m.outbound_last) + e.payload,
            outbound_last: e.ts,
            ..m
        }
    } else {
        m
    }
}

/// How many bytes of the two legs can be mixed: the length of the common prefix.
pub open spec fn mixable_len(m: BufferModel) -> int {
    vstd::math::min(m.inbound.len() as int, m.outbound.len() as int)
}

/// `a` and `b` interleaved byte for byte over their common prefix: byte `2k`
/// comes from `a[k]`, byte `2k + 1` from `b[k]`.
pub open spec fn interleave(a: Seq<u8>, b: Seq<u8>) -> Seq<u8> {
    Seq::new((2 * vstd::math::min(a.len() as int, b.len() as int)) as nat, |i: int|
        if i % 2 == 0 {
            a[i / 2]
        } else {
            b[i / 2]
        })
}

/// The flush rule: when the common prefix of the two legs reaches the
/// threshold, both legs are drained of that prefix and one mixed frame is
/// produced from it; otherwise nothing changes.
pub open spec fn step_flush(m: BufferModel) -> (BufferModel, Option<Seq<u8>>) {
    let n = mixable_len(m);
    if n >= MIN_MIX_BYTES {
        (
            BufferModel { inbound: m.inbound.skip(n), outbound: m.outbound.skip(n), ..m },
            Some(interleave(m.inbound.take(n), m.outbound.take(n))),
        )
    } else {
        (m, None)
    }
}

/// One whole media step: append per the event's track, then apply the flush rule.
pub open spec fn step_media(m: BufferModel, e: MediaModel) -> (BufferModel, Option<Seq<u8>>) {
    step_flush(step_append(m, e))
}

/// Processes one media event against the call's buffering state:
/// decodes the payload, pads the named leg with silence for any timestamp
/// gap, appends the payload, and drains both legs into one interleaved mixed
/// frame when each holds at least `MIN_MIX_BYTES` bytes.
///
/// An event whose timestamp or payload does not parse is dropped: the state
/// is unchanged and no frame is produced.
pub fn process_twilio_media(media: EventMedia, buffer_data: &mut BufferData) -> (mixed: Option<
    Vec<u8>,
>)
    ensures
        ({
            let pre = old(buffer_data).model();
            let post = final(buffer_data).model();
            match (parse_u32_of(media.timestamp@), base64_decode_of(media.payload@)) {
                (Some(ts), Some(payload)) => {
                    let e = MediaModel { track: media.track@, ts, payload };
                    post == step_media(pre, e).0 && (match (mixed, step_media(pre, e).1) {
                        (Some(v), Some(f)) => v@ == f,
                        (None, None) => true,
                        _ => false,
                    })
                },
                _ => mixed is None && post == pre,
            }
        }),
        mixed is Some ==> mixable_len(final(buffer_data).model()) == 0,
        (parse_u32_of(media.timestamp@) is Some && base64_decode_of(media.payload@) is Some)
            ==> mixable_len(final(buffer_data).model()) < MIN_MIX_BYTES,
{
    let payload = match base64_decode(&media.payload) {
        Some(p) => p,
        None => {
            assert(final(buffer_data).model() =~= old(buffer_data).model());
            return None;
        },
    };
    let timestamp = match parse_u32(&media.timestamp) {
        Some(t) => t,
        None => {
            assert(final(buffer_data).model() =~= old(buffer_data).model());
            return None;
        },
    };
    let ghost e = MediaModel {
        track: media.track@,
        ts: timestamp,
        payload: payload@,
    };
    let inbound_name: String = "inbound".to_owned();
    let outbound_name: String = "outbound".to_owned();
    if media.track == inbound_name {
        pad_with_silence(
            &mut buffer_data.inbound_buffer,
            timestamp,
            buffer_data.inbound_last_timestamp,
        );
        append_bytes(&mut buffer_data.inbound_buffer, &payload);
        buffer_data.inbound_last_timestamp = timestamp;
    } else if media.track == outbound_name {
        pad_with_silence(
            &mut buffer_data.outbound_buffer,
            timestamp,
            buffer_data.outbound_last_timestamp,
        );
        append_bytes(&mut buffer_data.outbound_buffer, &payload);
        buffer_data.outbound_last_timestamp = timestamp;
    }
    assert(buffer_data.model() =~= step_append(old(buffer_data).model(), e));
    let ghost appended = buffer_data.model();
    let in_len = buffer_data.inbound_buffer.len();
    let out_len = buffer_data.outbound_buffer.len();
    let n: usize = if in_len < out_len {
        in_len
    } else {
        out_len
    };
    assert(n == mixable_len(appended));
    if n >= MIN_MIX_BYTES {
        let ghost in_pfx = appended.inbound.take(n as int);
        let ghost out_pfx = appended.outbound.take(n as int);
        let mut mixed_frame: Vec<u8> = Vec::new();
        let mut k: usize = 0;
        while k < n
            invariant
                k <= n,
                n <= buffer_data.inbound_buffer@.len(),
                n <= buffer_data.outbound_buffer@.len(),
                in_pfx == buffer_data.inbound_buffer@.take(n as int),
                out_pfx == buffer_data.outbound_buffer@.take(n as int),
                mixed_frame@ == interleave(in_pfx, out_pfx).take(2 * k as int),
            decreases n - k,
        {
            mixed_frame.push(buffer_data.inbound_buffer[k]);
            mixed_frame.push(buffer_data.outbound_buffer[k]);
            assert(mixed_frame@ =~= interleave(in_pfx, out_pfx).take(2 * (k + 1) as int));
            k = k + 1;
        }
        assert(mixed_frame@ =~= interleave(in_pfx, out_pfx));
        let in_tail = buffer_data.inbound_buffer.split_off(n);
        buffer_data.inbound_buffer = in_tail;
        let out_tail = buffer_data.outbound_buffer.split_off(n);
        buffer_data.outbound_buffer = out_tail;
        proof {
            assert(buffer_data.inbound_buffer@ =~= appended.inbound.skip(n as int));
            assert(buffer_data.outbound_buffer@ =~= appended.outbound.skip(n as int));
            assert(buffer_data.model() =~= step_media(old(buffer_data).model(), e).0);
            assert(mixable_len(buffer_data.model()) == 0);
        }
        Some(mixed_frame)
    } else {
        None
    }
}

/// The buffering state after a whole sequence of media events, together with
/// every mixed frame produced along the way, in production order.
pub open spec fn media_fold(m: BufferModel, events: Seq<MediaModel>) -> (BufferModel, Seq<Seq<u8>>)
    decreases events.len(),
{
    if events.len() == 0 {
        (m, Seq::empty())
    } else {
        let step = step_media(m, events[0]);
        let rest = media_fold(step.0, events.drop_first());
        (
            rest.0,
            (match step.1 {
                Some(f) => seq![f],
                None => Seq::empty(),
            }) + rest.1,
        )
    }
}

/// The bytes a sequence of events appends to one leg whose last-seen
/// timestamp starts at `last`: per event, the inserted silence plus the
/// payload.
pub open spec fn appended_total(last: u32, events: Seq<MediaModel>) -> int
    decreases events.len(),
{
    if events.len() == 0 {
        0
    } else {
        MULAW_BYTES_PER_MS * gap_ms(events[0].ts, last) + events[0].payload.len()
            + appended_total(events[0].ts, events.drop_first())
    }
}

/// Processing no media events produces no mixed frame, whatever the state.
pub proof fn lemma_no_events_no_frame(m: BufferModel)
    ensures
        media_fold(m, Seq::empty()).1 == Seq::<Seq<u8>>::empty(),
        media_fold(m, Seq::empty()).0 == m,
{
}

/// Media events confined to the inbound leg only accumulate: with the
/// outbound leg empty no flush can trigger, no frame is produced, and the
/// inbound buffer's length afterwards is its initial length plus, over all
/// events, the inserted silence bytes and the payload bytes.
pub proof fn lemma_one_leg_buffer_length(m: BufferModel, events: Seq<MediaModel>)
    requires
        m.outbound.len() == 0,
        forall|i: int| 0 <= i < events.len() ==> (#[trigger] events[i]).track == "inbound"@,
    ensures
        media_fold(m, events).0.inbound.len() == m.inbound.len() + appended_total(
            m.inbound_last,
            events,
        ),
        media_fold(m, events).0.outbound.len() == 0,
        media_fold(m, events).1 == Seq::<Seq<u8>>::empty(),
    decreases events.len(),
{
    if events.len() > 0 {
        let e = events[0];
        assert(e.track == "inbound"@);
        assert("inbound"@ != "outbound"@) by {
            reveal_strlit("inbound");
            reveal_strlit("outbound");
        }
        let m1 = step_append(m, e);
        assert(m1.outbound.len() == 0);
        assert(mixable_len(m1) == 0);
        assert(step_media(m, e).0 == m1 && step_media(m, e).1 is None);
        assert(m1.inbound.len() == m.inbound.len() + MULAW_BYTES_PER_MS * gap_ms(
            e.ts,
            m.inbound_last,
        ) + e.payload.len());
        assert(m1.inbound_last == e.ts);
        assert(forall|i: int|
            0 <= i < events.drop_first().len() ==> (#[trigger] events.drop_first()[i]).track
                == "inbound"@);
        lemma_one_leg_buffer_length(m1, events.drop_first());
        assert(media_fold(m, events).1 =~= media_fold(m1, events.drop_first()).1);
    }
}

/// The same accumulation law for the outbound leg: with the inbound leg
/// empty, outbound-only events produce no frame and grow the outbound
/// buffer by exactly the inserted silence plus the payloads.
pub proof fn lemma_one_leg_buffer_length_outbound(m: BufferModel, events: Seq<MediaModel>)
    requires
        m.inbound.len() == 0,
        forall|i: int| 0 <= i < events.len() ==> (#[trigger] events[i]).track == "outbound"@,
    ensures
        media_fold(m, events).0.outbound.len() == m.outbound.len() + appended_total(
            m.outbound_last,
            events,
        ),
        media_fold(m, events).0.inbound.len() == 0,
        media_fold(m, events).1 == Seq::<Seq<u8>>::empty(),
    decreases events.len(),
{
    if events.len() > 0 {
        let e = events[0];
        assert(e.track == "outbound"@);
        assert("inbound"@ != "outbound"@) by {
            reveal_strlit("inbound");
            reveal_strlit("outbound");
        }
        let m1 = step_append(m, e);
        assert(m1.inbound.len() == 0);
        assert(mixable_len(m1) == 0);
        assert(step_media(m, e).0 == m1 && step_media(m, e).1 is None);
        assert(m1.outbound.len() == m.outbound.len() + MULAW_BYTES_PER_MS * gap_ms(
            e.ts,
            m.outbound_last,
        ) + e.payload.len());
        assert(forall|i: int|
            0 <= i < events.drop_first().len() ==> (#[trigger] events.drop_first()[i]).track
                == "outbound"@);
        lemma_one_leg_buffer_length_outbound(m1, events.drop_first());
        assert(media_fold(m, events).1 =~= media_fold(m1, events.drop_first()).1);
    }
}

/// Bytes in one nominal media chunk.
pub const NOMINAL_CHUNK_BYTES: usize = TWILIO_MS_PER_CHUNK * MULAW_BYTES_PER_MS;

/// Both legs fed in lockstep with nominal chunks and no gaps: event `2j`
/// carries the inbound leg's `j`-th chunk and event `2j + 1` the outbound
/// leg's, both stamped `20 * j` milliseconds.
pub open spec fn nominal_feed(ins: Seq<Seq<u8>>, outs: Seq<Seq<u8>>) -> Seq<MediaModel> {
    Seq::new((2 * vstd::math::min(ins.len() as int, outs.len() as int)) as nat, |i: int|
        if i % 2 == 0 {
            MediaModel {
                track: "inbound"@,
                ts: (TWILIO_MS_PER_CHUNK * (i / 2)) as u32,
                payload: ins[i / 2],
            }
        } else {
            MediaModel {
                track: "outbound"@,
                ts: (TWILIO_MS_PER_CHUNK * (i / 2)) as u32,
                payload: outs[i / 2],
            }
        })
}

/// One pair of the nominal feed at a time: from a state where both legs hold
/// `j` chunks and both timestamps sit at the `j`-th chunk boundary, the rest
/// of the feed produces exactly one frame, of twice the threshold length,
/// and drains both legs completely.
proof fn lemma_nominal_suffix(ins: Seq<Seq<u8>>, outs: Seq<Seq<u8>>, j: int, m: BufferModel)
    requires
        ins.len() == MIN_TWILIO_CHUNKS_TO_MIX,
        outs.len() == MIN_TWILIO_CHUNKS_TO_MIX,
        forall|i: int| 0 <= i < ins.len() ==> (#[trigger] ins[i]).len() == NOMINAL_CHUNK_BYTES,
        forall|i: int| 0 <= i < outs.len() ==> (#[trigger] outs[i]).len() == NOMINAL_CHUNK_BYTES,
        0 <= j < MIN_TWILIO_CHUNKS_TO_MIX,
        m.inbound.len() == NOMINAL_CHUNK_BYTES * j,
        m.outbound.len() == NOMINAL_CHUNK_BYTES * j,
        m.inbound_last == (if j == 0 {
            0int
        } else {
            TWILIO_MS_PER_CHUNK * j - TWILIO_MS_PER_CHUNK
        }),
        m.outbound_last == m.inbound_last,
    ensures
        media_fold(m, nominal_feed(ins, outs).skip(2 * j)).1.len() == 1,
        media_fold(m, nominal_feed(ins, outs).skip(2 * j)).1[0].len() == 2 * MIN_MIX_BYTES,
        media_fold(m, nominal_feed(ins, outs).skip(2 * j)).0.inbound.len() == 0,
        media_fold(m, nominal_feed(ins, outs).skip(2 * j)).0.outbound.len() == 0,
    decreases MIN_TWILIO_CHUNKS_TO_MIX - j,
{
    let feed = nominal_feed(ins, outs);
    let s = feed.skip(2 * j);
    assert(feed.len() == 2 * MIN_TWILIO_CHUNKS_TO_MIX);
    assert(s.len() == 2 * MIN_TWILIO_CHUNKS_TO_MIX - 2 * j);
    assert("inbound"@.len() == 7 && "outbound"@.len() == 8) by {
        reveal_strlit("inbound");
        reveal_strlit("outbound");
    }
    assert("inbound"@ != "outbound"@);
    let e0 = s[0];
    assert(e0 == feed[2 * j]);
    assert((2 * j) % 2 == 0 && (2 * j) / 2 == j);
    assert(e0.track == "inbound"@ && e0.ts == TWILIO_MS_PER_CHUNK * j && e0.payload.len()
        == NOMINAL_CHUNK_BYTES);
    let m1 = step_append(m, e0);
    assert(gap_ms(e0.ts, m.inbound_last) == 0);
    assert(m1.inbound.len() == NOMINAL_CHUNK_BYTES * j + NOMINAL_CHUNK_BYTES) by {
        assert(silence_seq(0) =~= Seq::<u8>::empty());
        assert(padded(m.inbound, e0.ts, m.inbound_last) =~= m.inbound);
    }
    assert(m1.outbound.len() == NOMINAL_CHUNK_BYTES * j);
    assert(NOMINAL_CHUNK_BYTES * j < MIN_MIX_BYTES) by (nonlinear_arith)
        requires
            0 <= j < MIN_TWILIO_CHUNKS_TO_MIX,
            NOMINAL_CHUNK_BYTES == 160,
            MIN_MIX_BYTES == 3200,
            MIN_TWILIO_CHUNKS_TO_MIX == 20,
    ;
    assert(mixable_len(m1) == NOMINAL_CHUNK_BYTES * j);
    assert(step_media(m, e0).0 == m1 && step_media(m, e0).1 is None);
    let s1 = s.drop_first();
    assert(s1 =~= feed.skip(2 * j + 1));
    let e1 = s1[0];
    assert(e1 == feed[2 * j + 1]);
    assert((2 * j + 1) % 2 == 1 && (2 * j + 1) / 2 == j);
    assert(e1.track == "outbound"@ && e1.ts == TWILIO_MS_PER_CHUNK * j && e1.payload.len()
        == NOMINAL_CHUNK_BYTES);
    let m2 = step_append(m1, e1);
    assert(gap_ms(e1.ts, m1.outbound_last) == 0);
    assert(m2.outbound.len() == NOMINAL_CHUNK_BYTES * (j + 1)) by {
        assert(silence_seq(0) =~= Seq::<u8>::empty());
        assert(padded(m1.outbound, e1.ts, m1.outbound_last) =~= m1.outbound);
    }
    assert(m2.inbound.len() == NOMINAL_CHUNK_BYTES * (j + 1));
    assert(m2.inbound_last == TWILIO_MS_PER_CHUNK * j && m2.outbound_last == TWILIO_MS_PER_CHUNK
        * j);
    let s2 = s1.drop_first();
    assert(s2 =~= feed.skip(2 * j + 2));
    assert(mixable_len(m2) == NOMINAL_CHUNK_BYTES * (j + 1));
    if j + 1 == MIN_TWILIO_CHUNKS_TO_MIX {
        assert(NOMINAL_CHUNK_BYTES * (j + 1) == MIN_MIX_BYTES);
        let flushed = step_flush(m2);
        assert(flushed.1 is Some);
        assert(flushed.1.unwrap().len() == 2 * MIN_MIX_BYTES);
        assert(flushed.0.inbound.len() == 0 && flushed.0.outbound.len() == 0);
        assert(s2.len() == 0);
        assert(step_media(m1, e1) == flushed);
        assert(s1.len() > 0);
        assert(media_fold(flushed.0, s2).1 =~= Seq::<Seq<u8>>::empty());
        assert(media_fold(flushed.0, s2).0 == flushed.0);
        assert(media_fold(m1, s1).1 =~= seq![flushed.1.unwrap()] + media_fold(flushed.0, s2).1);
        assert(media_fold(m, s).1 =~= media_fold(m1, s1).1);
        assert(media_fold(m, s).0 == media_fold(m1, s1).0);
        assert(media_fold(m1, s1).0 == media_fold(flushed.0, s2).0);
        assert(media_fold(m, s).1.len() == 1);
        assert(media_fold(m, s).1[0].len() == 2 * MIN_MIX_BYTES);
    } else {
        assert(NOMINAL_CHUNK_BYTES * (j + 1) < MIN_MIX_BYTES) by (nonlinear_arith)
            requires
                0 <= j + 1 < MIN_TWILIO_CHUNKS_TO_MIX,
                NOMINAL_CHUNK_BYTES == 160,
                MIN_MIX_BYTES == 3200,
                MIN_TWILIO_CHUNKS_TO_MIX == 20,
        ;
        assert(step_media(m1, e1).0 == m2 && step_media(m1, e1).1 is None);
        lemma_nominal_suffix(ins, outs, j + 1, m2);
        assert(s1.len() > 0);
        assert(media_fold(m1, s1).1 =~= media_fold(m2, s2).1);
        assert(media_fold(m1, s1).0 == media_fold(m2, s2).0);
        assert(media_fold(m, s).1 =~= media_fold(m1, s1).1);
        assert(media_fold(m, s).0 == media_fold(m1, s1).0);
    }
}

/// Round trip at the threshold: feeding each leg exactly
/// `MIN_TWILIO_CHUNKS_TO_MIX` nominal chunks in lockstep, with no timestamp
/// gaps, produces exactly one mixed frame, of length `2 * MIN_MIX_BYTES`,
/// and leaves no residual bytes in either buffer.
pub proof fn lemma_nominal_round_trip(ins: Seq<Seq<u8>>, outs: Seq<Seq<u8>>)
    requires
        ins.len() == MIN_TWILIO_CHUNKS_TO_MIX,
        outs.len() == MIN_TWILIO_CHUNKS_TO_MIX,
        forall|i: int| 0 <= i < ins.len() ==> (#[trigger] ins[i]).len() == NOMINAL_CHUNK_BYTES,
        forall|i: int| 0 <= i < outs.len() ==> (#[trigger] outs[i]).len() == NOMINAL_CHUNK_BYTES,
    ensures
        media_fold(init_model(), nominal_feed(ins, outs)).1.len() == 1,
        media_fold(init_model(), nominal_feed(ins, outs)).1[0].len() == 2 * MIN_MIX_BYTES,
        media_fold(init_model(), nominal_feed(ins, outs)).0.inbound.len() == 0,
        media_fold(init_model(), nominal_feed(ins, outs)).0.outbound.len() == 0,
{
    let feed = nominal_feed(ins, outs);
    assert(feed.skip(0) =~= feed);
    lemma_nominal_suffix(ins, outs, 0, init_model());
}

/// The shape of an interleaved frame over equal-length legs: even length
/// `2n`, byte `2k` is the inbound leg's byte `k` and byte `2k + 1` the
/// outbound leg's byte `k`, so each leg's order is preserved.
pub proof fn lemma_interleave_shape(a: Seq<u8>, b: Seq<u8>)
    requires
        a.len() == b.len(),
    ensures
        interleave(a, b).len() == 2 * a.len(),
        forall|k: int| 0 <= k < a.len() ==> interleave(a, b)[2 * k] == a[k],
        forall|k: int| 0 <= k < b.len() ==> interleave(a, b)[2 * k + 1] == b[k],
{
    assert forall|k: int| 0 <= k < a.len() implies interleave(a, b)[2 * k] == a[k] by {
        assert((2 * k) % 2 == 0 && (2 * k) / 2 == k);
    }
    assert forall|k: int| 0 <= k < b.len() implies interleave(a, b)[2 * k + 1] == b[k] by {
        assert((2 * k + 1) % 2 == 1 && (2 * k + 1) / 2 == k);
    }
}

/// Every frame the flush rule produces interleaves the common prefix of the
/// two legs byte for byte: it has even length `2n` where `n` is the mixable
/// length, its byte `2k` comes from the inbound buffer's byte `k` and its
/// byte `2k + 1` from the outbound buffer's byte `k`.
#[verifier::rlimit(50)]
pub proof fn lemma_flush_frame_shape(m: BufferModel)
    requires
        step_flush(m).1 is Some,
    ensures
        step_flush(m).1.unwrap().len() == 2 * mixable_len(m),
        forall|k: int|
            0 <= k < mixable_len(m) ==> step_flush(m).1.unwrap()[2 * k] == m.inbound[k],
        forall|k: int|
            0 <= k < mixable_len(m) ==> step_flush(m).1.unwrap()[2 * k + 1] == m.outbound[k],
{
    let n = mixable_len(m);
    let a = m.inbound.take(n);
    let b = m.outbound.take(n);
    lemma_interleave_shape(a, b);
    assert(forall|k: int| 0 <= k < n ==> a[k] == m.inbound[k]);
    assert(forall|k: int| 0 <= k < n ==> b[k] == m.outbound[k]);
}

} // verus!
