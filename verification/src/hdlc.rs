//! HDLC-style framing: byte stuffing with a flag delimiter, an escape byte,
//! and a 16-bit frame check sequence (PPP FCS, polynomial 0x8408).

use vstd::prelude::*;

verus! {

/// Frame delimiter byte.
pub const HDLC_FLAG: u8 = 0x7E;
/// Escape introducer byte.
pub const HDLC_ESCAPE: u8 = 0x7D;
/// Mask XORed onto an escaped byte.
pub const HDLC_XOR: u8 = 0x20;

// ---------------------------------------------------------------------------
// Frame check sequence (PPP FCS-16): polynomial 0x8408, initial value 0xFFFF,
// eight shift-and-conditional-XOR steps per byte, complemented at the end.
// ---------------------------------------------------------------------------

/// One shift step of the FCS bit loop.
pub open spec fn fcs_shift_once(x: u16) -> u16 {
    if x & 0x0001 != 0 {
        (x >> 1) ^ 0x8408
    } else {
        x >> 1
    }
}

/// `n` shift steps of the FCS bit loop, applied to `x`.
pub open spec fn fcs_shifts(x: u16, n: nat) -> u16
    decreases n,
{
    if n == 0 {
        x
    } else {
        fcs_shift_once(fcs_shifts(x, (n - 1) as nat))
    }
}

/// Folding one data byte into the running FCS value.
pub open spec fn fcs_step(fcs: u16, b: u8) -> u16 {
    (fcs >> 8) ^ fcs_shifts((fcs ^ b as u16) & 0x00FF, 8)
}

/// The running (uncomplemented) FCS over a byte sequence.
pub open spec fn fcs_acc(data: Seq<u8>) -> u16
    decreases data.len(),
{
    if data.len() == 0 {
        0xFFFF
    } else {
        fcs_step(fcs_acc(data.drop_last()), data.last())
    }
}

/// The 16-bit FCS value appended to a frame (already complemented).
pub open spec fn fcs16(data: Seq<u8>) -> u16 {
    !fcs_acc(data)
}

/// Compute the PPP/HDLC 16-bit FCS of `data`.
pub fn fcs16_ppp(data: &[u8]) -> (r: u16)
    ensures
        r == fcs16(data@),
{
    let mut fcs: u16 = 0xFFFF;
    let mut i: usize = 0;
    while i < data.len()
        invariant
            i <= data@.len(),
            fcs == fcs_acc(data@.take(i as int)),
        decreases data@.len() - i,
    {
        let b = data[i];
        let x0: u16 = (fcs ^ (b as u16)) & 0x00FF;
        let mut x: u16 = x0;
        let mut j: usize = 0;
        while j < 8
            invariant
                j <= 8,
                x == fcs_shifts(x0, j as nat),
            decreases 8 - j,
        {
            if (x & 0x0001) != 0 {
                x = (x >> 1) ^ 0x8408;
            } else {
                x = x >> 1;
            }
            j += 1;
        }
        proof {
            assert(data@.take(i + 1).drop_last() =~= data@.take(i as int));
            assert(data@.take(i + 1).last() == data@[i as int]);
        }
        fcs = (fcs >> 8) ^ x;
        i += 1;
    }
    proof {
        assert(data@.take(data@.len() as int) =~= data@);
    }
    !fcs
}

// ---------------------------------------------------------------------------
// Byte stuffing.
// ---------------------------------------------------------------------------

/// The on-wire encoding of a single payload byte: reserved bytes become a
/// two-byte escape sequence, every other byte passes through unchanged.
pub open spec fn escape_byte(b: u8) -> Seq<u8> {
    if b == HDLC_FLAG || b == HDLC_ESCAPE {
        seq![HDLC_ESCAPE, b ^ HDLC_XOR]
    } else {
        seq![b]
    }
}

/// The on-wire encoding of a byte sequence, each byte escaped as needed.
pub open spec fn escape_bytes(s: Seq<u8>) -> Seq<u8>
    decreases s.len(),
{
    if s.len() == 0 {
        Seq::empty()
    } else {
        escape_byte(s[0]) + escape_bytes(s.drop_first())
    }
}

/// The two FCS bytes as they appear on the wire (little-endian), before
/// escaping.
pub open spec fn fcs_bytes_le(fcs: u16) -> Seq<u8> {
    seq![(fcs & 0x00FF) as u8, (fcs >> 8) as u8]
}

/// The full content of a frame between the delimiters, before escaping:
/// payload followed by its FCS.
pub open spec fn frame_content(p: Seq<u8>) -> Seq<u8> {
    p + fcs_bytes_le(fcs16(p))
}

/// A complete encoded frame: flag, escaped payload, escaped FCS, flag.
pub open spec fn frame_bytes(p: Seq<u8>) -> Seq<u8> {
    seq![HDLC_FLAG] + escape_bytes(frame_content(p)) + seq![HDLC_FLAG]
}

/// Escaping distributes over appending a byte at the end.
pub proof fn lemma_escape_snoc(s: Seq<u8>, b: u8)
    ensures
        escape_bytes(s.push(b)) == escape_bytes(s) + escape_byte(b),
    decreases s.len(),
{
    if s.len() == 0 {
        assert(s.push(b)[0] == b);
        assert(s.push(b).drop_first() =~= Seq::<u8>::empty());
        assert(escape_bytes(Seq::<u8>::empty()) =~= Seq::<u8>::empty());
        assert(escape_bytes(s.push(b)) =~= escape_byte(b));
        assert(escape_bytes(s) + escape_byte(b) =~= escape_byte(b));
    } else {
        assert(s.push(b)[0] == s[0]);
        assert(s.push(b).drop_first() =~= s.drop_first().push(b));
        lemma_escape_snoc(s.drop_first(), b);
        assert(escape_bytes(s.push(b)) =~= escape_bytes(s) + escape_byte(b));
    }
}

/// No byte of an escaped sequence equals the flag byte.
pub proof fn lemma_escape_no_flag(s: Seq<u8>)
    ensures
        forall|j: int| 0 <= j < escape_bytes(s).len() ==> escape_bytes(s)[j] != HDLC_FLAG,
    decreases s.len(),
{
    if s.len() > 0 {
        lemma_escape_no_flag(s.drop_first());
        let e0 = escape_byte(s[0]);
        let rest = escape_bytes(s.drop_first());
        assert(0x7Eu8 ^ 0x20u8 != 0x7Eu8) by (bit_vector);
        assert(0x7Du8 ^ 0x20u8 != 0x7Eu8) by (bit_vector);
        assert forall|j: int| 0 <= j < escape_bytes(s).len() implies escape_bytes(s)[j]
            != HDLC_FLAG by {
            if j < e0.len() {
                assert(escape_bytes(s)[j] == e0[j]);
            } else {
                assert(escape_bytes(s)[j] == rest[j - e0.len()]);
            }
        }
    }
}

/// Append the escaped form of one byte to `out`.
fn push_escaped(out: &mut Vec<u8>, b: u8)
    ensures
        final(out)@ == old(out)@ + escape_byte(b),
{
    if b == HDLC_FLAG || b == HDLC_ESCAPE {
        out.push(HDLC_ESCAPE);
        out.push(b ^ HDLC_XOR);
        assert(final(out)@ =~= old(out)@ + escape_byte(b));
    } else {
        out.push(b);
        assert(final(out)@ =~= old(out)@ + escape_byte(b));
    }
}

/// Frame a payload into an HDLC frame: opening flag, escaped payload, the
/// escaped 16-bit FCS of the unescaped payload (little-endian), closing flag.
/// `out` is cleared first; the previous contents do not survive.
pub fn hdlc_frame(payload: &[u8], out: &mut Vec<u8>)
    ensures
        final(out)@ == frame_bytes(payload@),
{
    out.clear();
    out.push(HDLC_FLAG);
    let fcs = fcs16_ppp(payload);
    let mut i: usize = 0;
    while i < payload.len()
        invariant
            i <= payload@.len(),
            out@ == seq![HDLC_FLAG] + escape_bytes(payload@.take(i as int)),
        decreases payload@.len() - i,
    {
        push_escaped(out, payload[i]);
        proof {
            assert(payload@.take(i + 1) =~= payload@.take(i as int).push(payload@[i as int]));
            lemma_escape_snoc(payload@.take(i as int), payload@[i as int]);
            assert(out@ =~= seq![HDLC_FLAG] + escape_bytes(payload@.take(i + 1)));
        }
        i += 1;
    }
    proof {
        assert(payload@.take(payload@.len() as int) =~= payload@);
    }
    let lo = (fcs & 0x00FF) as u8;
    let hi = (fcs >> 8) as u8;
    proof {
        assert(fcs & 0x00FF < 0x100 && fcs >> 8 < 0x100) by (bit_vector);
    }
    push_escaped(out, lo);
    push_escaped(out, hi);
    out.push(HDLC_FLAG);
    proof {
        assert(payload@ + fcs_bytes_le(fcs) =~= payload@.push(lo).push(hi));
        lemma_escape_snoc(payload@, lo);
        lemma_escape_snoc(payload@.push(lo), hi);
        assert(final(out)@ =~= frame_bytes(payload@));
    }
}

// ---------------------------------------------------------------------------
// Deframing.
// ---------------------------------------------------------------------------

/// Outcome of scanning a receive buffer for one complete frame.
pub enum ScanResult {
    /// The scan reached the end of the buffer without closing a frame.
    Incomplete,
    /// A frame closed after `consumed` buffer bytes; `decoded` is the
    /// unescaped content found between the delimiters.
    Complete { consumed: int, decoded: Seq<u8> },
}

/// The flag-and-escape scan, one byte per step, starting at index `i` with
/// the given in-frame, escape-pending and accumulated-content state.
/// Bytes before the first flag are skipped; an unescaped flag closes the
/// frame when at least two content bytes (the minimum for an FCS) have
/// accumulated, and is otherwise ignored as an empty frame.
pub open spec fn scan(buf: Seq<u8>, i: int, in_frame: bool, esc: bool, acc: Seq<u8>) -> ScanResult
    decreases buf.len() - i,
{
    if i < 0 || i >= buf.len() {
        ScanResult::Incomplete
    } else {
        let b = buf[i];
        if !in_frame {
            if b == HDLC_FLAG {
                scan(buf, i + 1, true, false, Seq::empty())
            } else {
                scan(buf, i + 1, false, false, acc)
            }
        } else if esc {
            scan(buf, i + 1, true, false, acc.push(b ^ HDLC_XOR))
        } else if b == HDLC_ESCAPE {
            scan(buf, i + 1, true, true, acc)
        } else if b == HDLC_FLAG {
            if acc.len() >= 2 {
                ScanResult::Complete { consumed: i + 1, decoded: acc }
            } else {
                scan(buf, i + 1, false, false, acc)
            }
        } else {
            scan(buf, i + 1, true, false, acc.push(b))
        }
    }
}

/// Model of one deframe attempt on a buffer.
pub enum FrameOutcome {
    /// No complete frame yet; more bytes are needed.
    Incomplete,
    /// A frame completed and its FCS matched; the payload is delivered.
    Frame(Seq<u8>),
    /// A frame completed but its FCS did not match; the content is dropped.
    FcsMismatch,
}

/// A 16-bit value from its little-endian byte pair.
pub open spec fn le16_of(lo: u8, hi: u8) -> u16 {
    (lo as u16) | ((hi as u16) << 8)
}

/// Splitting a 16-bit value into little-endian bytes and reassembling them
/// gives the value back.
pub proof fn lemma_le16_round_trip(v: u16)
    ensures
        le16_of((v & 0x00FF) as u8, (v >> 8) as u8) == v,
{
    assert(((v & 0x00FF) as u8 as u16) | (((v >> 8) as u8 as u16) << 8) == v) by (bit_vector);
}

/// What one deframe attempt on `buf` reports.
pub open spec fn deframe_model(buf: Seq<u8>) -> FrameOutcome {
    match scan(buf, 0, false, false, Seq::empty()) {
        ScanResult::Incomplete => FrameOutcome::Incomplete,
        ScanResult::Complete { consumed, decoded } => {
            let payload = decoded.take(decoded.len() - 2);
            let fcs_recv = le16_of(decoded[decoded.len() - 2], decoded[decoded.len() - 1]);
            if fcs_recv == fcs16(payload) {
                FrameOutcome::Frame(payload)
            } else {
                FrameOutcome::FcsMismatch
            }
        },
    }
}

/// What one deframe attempt on `buf` leaves in the buffer: untouched when
/// incomplete, advanced past the consumed bytes otherwise.
pub open spec fn deframe_rest(buf: Seq<u8>) -> Seq<u8> {
    match scan(buf, 0, false, false, Seq::empty()) {
        ScanResult::Incomplete => buf,
        ScanResult::Complete { consumed, .. } => buf.skip(consumed),
    }
}

/// Result of one deframe attempt, distinguishing "no complete frame yet"
/// from "frame completed but its checksum failed" so that the caller can
/// account for errors.
#[derive(Debug, PartialEq, Eq)]
pub enum DeframeResult {
    /// No complete frame yet; the buffer was left untouched.
    Incomplete,
    /// A frame completed with a matching FCS; holds its payload.
    Frame(Vec<u8>),
    /// A frame completed but the FCS did not match; the content was dropped.
    FcsMismatch,
}

impl View for DeframeResult {
    type V = FrameOutcome;

    open spec fn view(&self) -> FrameOutcome {
        match self {
            DeframeResult::Incomplete => FrameOutcome::Incomplete,
            DeframeResult::Frame(p) => FrameOutcome::Frame(p@),
            DeframeResult::FcsMismatch => FrameOutcome::FcsMismatch,
        }
    }
}

/// Deframe HDLC data: scan `buf` for a complete frame, unescaping as needed.
/// On a completed frame the consumed bytes are removed from the front of
/// `buf`; when no frame has completed, `buf` is left untouched so that more
/// bytes can be appended later.
pub fn hdlc_deframe(buf: &mut Vec<u8>) -> (r: DeframeResult)
    ensures
        r@ == deframe_model(old(buf)@),
        final(buf)@ == deframe_rest(old(buf)@),
{
    let ghost buf0 = buf@;
    let mut in_frame = false;
    let mut escape = false;
    let mut out: Vec<u8> = Vec::new();
    let mut i: usize = 0;
    while i < buf.len()
        invariant
            i <= buf@.len(),
            buf@ == buf0,
            buf0 == old(buf)@,
            !in_frame ==> !escape,
            scan(buf0, 0, false, false, Seq::empty()) == scan(
                buf0,
                i as int,
                in_frame,
                escape,
                out@,
            ),
        decreases buf@.len() - i,
    {
        let b = buf[i];
        if !in_frame {
            if b == HDLC_FLAG {
                proof {
                    assert(scan(buf0, i as int, in_frame, escape, out@) == scan(
                        buf0,
                        i + 1,
                        true,
                        false,
                        Seq::empty(),
                    ));
                }
                in_frame = true;
                out.clear();
            } else {
                proof {
                    assert(scan(buf0, i as int, in_frame, escape, out@) == scan(
                        buf0,
                        i + 1,
                        false,
                        false,
                        out@,
                    ));
                }
            }
        } else if escape {
            proof {
                assert(scan(buf0, i as int, in_frame, escape, out@) == scan(
                    buf0,
                    i + 1,
                    true,
                    false,
                    out@.push(b ^ HDLC_XOR),
                ));
            }
            out.push(b ^ HDLC_XOR);
            escape = false;
        } else if b == HDLC_ESCAPE {
            proof {
                assert(scan(buf0, i as int, in_frame, escape, out@) == scan(
                    buf0,
                    i + 1,
                    true,
                    true,
                    out@,
                ));
            }
            escape = true;
        } else if b == HDLC_FLAG {
            if out.len() >= 2 {
                proof {
                    assert(scan(buf0, 0, false, false, Seq::empty())
                        == (ScanResult::Complete { consumed: i + 1, decoded: out@ }));
                }
                let ghost decoded = out@;
                let consumed = i + 1;
                // Remove the consumed bytes from the front of the buffer.
                let mut rest: Vec<u8> = Vec::new();
                let mut j: usize = consumed;
                while j < buf.len()
                    invariant
                        consumed <= j <= buf@.len(),
                        buf@ == buf0,
                        rest@ == buf0.subrange(consumed as int, j as int),
                    decreases buf@.len() - j,
                {
                    let c = buf[j];
                    rest.push(c);
                    proof {
                        assert(buf0.subrange(consumed as int, j + 1) =~= buf0.subrange(
                            consumed as int,
                            j as int,
                        ).push(buf0[j as int]));
                    }
                    j += 1;
                }
                *buf = rest;
                proof {
                    assert(buf@ =~= buf0.skip(consumed as int));
                }
                // Split the decoded content into payload and trailing FCS.
                let hi = out.pop().unwrap();
                let lo = out.pop().unwrap();
                proof {
                    assert(out@ =~= decoded.take(decoded.len() - 2));
                }
                let fcs_recv: u16 = (lo as u16) | ((hi as u16) << 8);
                let fcs_calc = fcs16_ppp(out.as_slice());
                proof {
                    assert(lo == decoded[decoded.len() - 2] && hi == decoded[decoded.len() - 1]);
                    assert(fcs_recv == le16_of(decoded[decoded.len() - 2], decoded[decoded.len()
                        - 1]));
                    assert(fcs_calc == fcs16(decoded.take(decoded.len() - 2)));
                }
                if fcs_recv == fcs_calc {
                    proof {
                        assert(deframe_model(buf0) == FrameOutcome::Frame(decoded.take(
                            decoded.len() - 2,
                        )));
                    }
                    return DeframeResult::Frame(out);
                } else {
                    return DeframeResult::FcsMismatch;
                }
            }
            proof {
                assert(scan(buf0, i as int, in_frame, escape, out@) == scan(
                    buf0,
                    i + 1,
                    false,
                    false,
                    out@,
                ));
            }
            in_frame = false;
        } else {
            proof {
                assert(scan(buf0, i as int, in_frame, escape, out@) == scan(
                    buf0,
                    i + 1,
                    true,
                    false,
                    out@.push(b),
                ));
            }
            out.push(b);
        }
        i += 1;
    }
    proof {
        assert(scan(buf0, buf0.len() as int, in_frame, escape, out@) == ScanResult::Incomplete);
    }
    DeframeResult::Incomplete
}

// ---------------------------------------------------------------------------
// Laws of the framer.
// ---------------------------------------------------------------------------

/// Escaping at most doubles a sequence and never shrinks it.
pub proof fn lemma_escape_len(s: Seq<u8>)
    ensures
        s.len() <= escape_bytes(s).len() <= 2 * s.len(),
    decreases s.len(),
{
    if s.len() > 0 {
        lemma_escape_len(s.drop_first());
    }
}

/// A subrange equality gives the bytes of `buf` pointwise.
proof fn lemma_subrange_pointwise(buf: Seq<u8>, i: int, s: Seq<u8>)
    requires
        0 <= i,
        i + s.len() <= buf.len(),
        buf.subrange(i, i + s.len()) == s,
    ensures
        forall|j: int| 0 <= j < s.len() ==> buf[i + j] == #[trigger] s[j],
{
    assert forall|j: int| 0 <= j < s.len() implies buf[i + j] == #[trigger] s[j] by {
        assert(s[j] == buf.subrange(i, i + s.len())[j]);
    }
}

/// Scanning in-frame across an escaped region appends the unescaped bytes
/// to the accumulated content.
proof fn lemma_scan_escaped(buf: Seq<u8>, i: int, acc: Seq<u8>, s: Seq<u8>)
    requires
        0 <= i,
        i + escape_bytes(s).len() <= buf.len(),
        buf.subrange(i, i + escape_bytes(s).len()) == escape_bytes(s),
    ensures
        scan(buf, i, true, false, acc) == scan(
            buf,
            i + escape_bytes(s).len(),
            true,
            false,
            acc + s,
        ),
    decreases s.len(),
{
    if s.len() == 0 {
        assert(acc + s =~= acc);
    } else {
        let b0 = s[0];
        let e = escape_byte(b0);
        let rest = escape_bytes(s.drop_first());
        let len = escape_bytes(s).len();
        assert(escape_bytes(s) == e + rest);
        lemma_subrange_pointwise(buf, i, escape_bytes(s));
        if b0 == HDLC_FLAG || b0 == HDLC_ESCAPE {
            assert(escape_bytes(s)[0] == HDLC_ESCAPE && escape_bytes(s)[1] == (b0 ^ HDLC_XOR));
            assert(buf[i + 0] == escape_bytes(s)[0] && buf[i + 1] == escape_bytes(s)[1]);
            assert(buf[i] == HDLC_ESCAPE);
            assert((b0 ^ 0x20u8) ^ 0x20u8 == b0) by (bit_vector);
            assert(scan(buf, i, true, false, acc) == scan(buf, i + 1, true, true, acc));
            assert(scan(buf, i + 1, true, true, acc) == scan(buf, i + 2, true, false, acc.push(
                b0,
            )));
            assert forall|j: int|
                0 <= j < rest.len() implies buf.subrange(i + 2, i + 2 + rest.len())[j] == rest[j] by {
                assert(escape_bytes(s)[2 + j] == rest[j]);
                assert(buf[i + (2 + j)] == escape_bytes(s)[2 + j]);
            }
            assert(buf.subrange(i + 2, i + 2 + rest.len()) =~= rest);
            lemma_scan_escaped(buf, i + 2, acc.push(b0), s.drop_first());
            assert(acc.push(b0) + s.drop_first() =~= acc + s);
        } else {
            assert(escape_bytes(s)[0] == b0);
            assert(buf[i + 0] == escape_bytes(s)[0]);
            assert(buf[i] == b0);
            assert(scan(buf, i, true, false, acc) == scan(buf, i + 1, true, false, acc.push(b0)));
            assert forall|j: int|
                0 <= j < rest.len() implies buf.subrange(i + 1, i + 1 + rest.len())[j] == rest[j] by {
                assert(escape_bytes(s)[1 + j] == rest[j]);
                assert(buf[i + (1 + j)] == escape_bytes(s)[1 + j]);
            }
            assert(buf.subrange(i + 1, i + 1 + rest.len()) =~= rest);
            lemma_scan_escaped(buf, i + 1, acc.push(b0), s.drop_first());
            assert(acc.push(b0) + s.drop_first() =~= acc + s);
        }
    }
}

/// Content of at least two bytes, escaped and delimited by flags, sitting
/// at position `i` of the buffer, is recognized by the scan, whatever
/// content had accumulated before.
proof fn lemma_scan_delimited(buf: Seq<u8>, i: int, c: Seq<u8>, acc: Seq<u8>)
    requires
        0 <= i,
        c.len() >= 2,
        i + 2 + escape_bytes(c).len() <= buf.len(),
        buf.subrange(i, i + 2 + escape_bytes(c).len()) == seq![HDLC_FLAG] + escape_bytes(c)
            + seq![HDLC_FLAG],
    ensures
        scan(buf, i, false, false, acc) == (ScanResult::Complete {
            consumed: i + 2 + escape_bytes(c).len(),
            decoded: c,
        }),
{
    let ec = escape_bytes(c);
    let dl = seq![HDLC_FLAG] + ec + seq![HDLC_FLAG];
    assert(dl.len() == 2 + ec.len());
    lemma_subrange_pointwise(buf, i, dl);
    assert(dl[0] == HDLC_FLAG);
    assert(buf[i + 0] == dl[0]);
    assert(buf[i] == HDLC_FLAG);
    assert(scan(buf, i, false, false, acc) == scan(buf, i + 1, true, false, Seq::empty()));
    assert forall|j: int|
        0 <= j < ec.len() implies buf.subrange(i + 1, i + 1 + ec.len())[j] == ec[j] by {
        assert(dl[1 + j] == ec[j]);
        assert(buf[i + (1 + j)] == dl[1 + j]);
    }
    assert(buf.subrange(i + 1, i + 1 + ec.len()) =~= ec);
    lemma_scan_escaped(buf, i + 1, Seq::empty(), c);
    assert(Seq::empty() + c =~= c);
    assert(dl[dl.len() - 1] == HDLC_FLAG);
    assert(buf[i + (dl.len() - 1)] == dl[dl.len() - 1]);
    assert(buf[i + 1 + ec.len()] == HDLC_FLAG);
    assert(scan(buf, i + 1 + ec.len(), true, false, c) == (ScanResult::Complete {
        consumed: i + dl.len(),
        decoded: c,
    }));
}

/// A complete frame sitting at position `i` of the buffer is recognized by
/// the scan, whatever content had accumulated before.
proof fn lemma_scan_frame_at(buf: Seq<u8>, i: int, p: Seq<u8>, acc: Seq<u8>)
    requires
        0 <= i,
        i + frame_bytes(p).len() <= buf.len(),
        buf.subrange(i, i + frame_bytes(p).len()) == frame_bytes(p),
    ensures
        scan(buf, i, false, false, acc) == (ScanResult::Complete {
            consumed: i + frame_bytes(p).len(),
            decoded: frame_content(p),
        }),
{
    let c = frame_content(p);
    assert(c.len() == p.len() + 2);
    lemma_scan_delimited(buf, i, c, acc);
}

/// When the scan finds the content of a well-formed frame, the deframe
/// attempt delivers its payload and advances the buffer.
proof fn lemma_complete_to_frame(buf: Seq<u8>, consumed: int, p: Seq<u8>)
    requires
        scan(buf, 0, false, false, Seq::empty()) == (ScanResult::Complete {
            consumed,
            decoded: frame_content(p),
        }),
    ensures
        deframe_model(buf) == FrameOutcome::Frame(p),
        deframe_rest(buf) == buf.skip(consumed),
{
    let c = frame_content(p);
    assert(c.len() == p.len() + 2);
    assert(c.take(c.len() - 2) =~= p);
    let f = fcs16(p);
    assert(c[c.len() - 2] == (f & 0x00FF) as u8);
    assert(c[c.len() - 1] == (f >> 8) as u8);
    lemma_le16_round_trip(f);
}

/// Round-trip: a framed payload, followed by any further bytes, deframes to
/// exactly that payload, and exactly the frame's bytes are consumed.
pub proof fn lemma_frame_round_trip(p: Seq<u8>, rest: Seq<u8>)
    ensures
        deframe_model(frame_bytes(p) + rest) == FrameOutcome::Frame(p),
        deframe_rest(frame_bytes(p) + rest) == rest,
{
    let fb = frame_bytes(p);
    let buf = fb + rest;
    assert(buf.subrange(0, fb.len() as int) =~= fb);
    lemma_scan_frame_at(buf, 0, p, Seq::empty());
    lemma_complete_to_frame(buf, fb.len() as int, p);
    assert(buf.skip(fb.len() as int) =~= rest);
}

/// Corruption is detected, not silently delivered: a structurally intact
/// frame whose trailing FCS does not match its content is reported as a
/// checksum failure, and its bytes are consumed.
pub proof fn lemma_corruption_detected(c: Seq<u8>, rest: Seq<u8>)
    requires
        c.len() >= 2,
        le16_of(c[c.len() - 2], c[c.len() - 1]) != fcs16(c.take(c.len() - 2)),
    ensures
        deframe_model(seq![HDLC_FLAG] + escape_bytes(c) + seq![HDLC_FLAG] + rest)
            == FrameOutcome::FcsMismatch,
        deframe_rest(seq![HDLC_FLAG] + escape_bytes(c) + seq![HDLC_FLAG] + rest) == rest,
{
    let dl = seq![HDLC_FLAG] + escape_bytes(c) + seq![HDLC_FLAG];
    let buf = dl + rest;
    assert(buf.subrange(0, dl.len() as int) =~= dl);
    lemma_scan_delimited(buf, 0, c, Seq::empty());
    assert(buf.skip(dl.len() as int) =~= rest);
}

/// A frame begins and ends with the flag byte and contains it nowhere else.
pub proof fn lemma_frame_delimiters(p: Seq<u8>)
    ensures
        4 <= frame_bytes(p).len(),
        frame_bytes(p)[0] == HDLC_FLAG,
        frame_bytes(p)[frame_bytes(p).len() - 1] == HDLC_FLAG,
        forall|j: int|
            0 < j < frame_bytes(p).len() - 1 ==> #[trigger] frame_bytes(p)[j] != HDLC_FLAG,
{
    let c = frame_content(p);
    let ec = escape_bytes(c);
    let fb = frame_bytes(p);
    lemma_escape_len(c);
    lemma_escape_no_flag(c);
    assert(fb.len() == 2 + ec.len());
    assert forall|j: int| 0 < j < fb.len() - 1 implies #[trigger] fb[j] != HDLC_FLAG by {
        assert(fb[j] == ec[j - 1]);
    }
}

/// Resynchronization: bytes that contain no flag are skipped, and a valid
/// frame after them is still recovered in full.
pub proof fn lemma_resync(g: Seq<u8>, p: Seq<u8>, rest: Seq<u8>)
    requires
        forall|k: int| 0 <= k < g.len() ==> g[k] != HDLC_FLAG,
    ensures
        deframe_model(g + frame_bytes(p) + rest) == FrameOutcome::Frame(p),
        deframe_rest(g + frame_bytes(p) + rest) == rest,
{
    let fb = frame_bytes(p);
    let buf = g + fb + rest;
    lemma_scan_garbage(buf, 0, g.len() as int, Seq::empty());
    assert(buf.subrange(g.len() as int, g.len() + fb.len() as int) =~= fb);
    lemma_scan_frame_at(buf, g.len() as int, p, Seq::empty());
    lemma_complete_to_frame(buf, g.len() + fb.len() as int, p);
    assert(buf.skip(g.len() + fb.len() as int) =~= rest);
}

/// Out of frame, the scan skips bytes that are not the flag.
proof fn lemma_scan_garbage(buf: Seq<u8>, i: int, j: int, acc: Seq<u8>)
    requires
        0 <= i <= j <= buf.len(),
        forall|k: int| i <= k < j ==> buf[k] != HDLC_FLAG,
    ensures
        scan(buf, i, false, false, acc) == scan(buf, j, false, false, acc),
    decreases j - i,
{
    if i < j {
        lemma_scan_garbage(buf, i + 1, j, acc);
    }
}

/// In frame, the scan cannot complete without seeing another flag byte.
proof fn lemma_scan_no_flag_incomplete(buf: Seq<u8>, i: int, esc: bool, acc: Seq<u8>)
    requires
        0 <= i,
        forall|k: int| i <= k < buf.len() ==> buf[k] != HDLC_FLAG,
    ensures
        scan(buf, i, true, esc, acc) == ScanResult::Incomplete,
    decreases buf.len() - i,
{
    if i < buf.len() {
        let b = buf[i];
        if esc {
            lemma_scan_no_flag_incomplete(buf, i + 1, false, acc.push(b ^ HDLC_XOR));
        } else if b == HDLC_ESCAPE {
            lemma_scan_no_flag_incomplete(buf, i + 1, true, acc);
        } else {
            lemma_scan_no_flag_incomplete(buf, i + 1, false, acc.push(b));
        }
    }
}

/// Partial delivery: any strict prefix of a frame deframes as incomplete and
/// leaves the buffer untouched, and appending the remainder of the frame
/// then yields the payload, exactly as if the frame had arrived whole.
pub proof fn lemma_partial_delivery(p: Seq<u8>, k: int)
    requires
        0 <= k < frame_bytes(p).len(),
    ensures
        deframe_model(frame_bytes(p).take(k)) == FrameOutcome::Incomplete,
        deframe_rest(frame_bytes(p).take(k)) == frame_bytes(p).take(k),
        deframe_model(frame_bytes(p).take(k) + frame_bytes(p).skip(k)) == FrameOutcome::Frame(p),
{
    let fb = frame_bytes(p);
    let pre = fb.take(k);
    lemma_frame_delimiters(p);
    if k > 0 {
        assert(pre[0] == HDLC_FLAG);
        assert(forall|j: int| 1 <= j < pre.len() ==> #[trigger] pre[j] != HDLC_FLAG);
        assert(scan(pre, 0, false, false, Seq::empty()) == scan(pre, 1, true, false, Seq::empty()));
        lemma_scan_no_flag_incomplete(pre, 1, false, Seq::empty());
    }
    assert(pre + fb.skip(k) =~= fb);
    assert(fb + Seq::<u8>::empty() =~= fb);
    lemma_frame_round_trip(p, Seq::empty());
}

/// A scan that completes consumes at least one byte and at most the buffer.
proof fn lemma_scan_consumed(buf: Seq<u8>, i: int, in_frame: bool, esc: bool, acc: Seq<u8>)
    requires
        0 <= i,
    ensures
        scan(buf, i, in_frame, esc, acc) matches ScanResult::Complete { consumed, .. } ==> i
            < consumed <= buf.len(),
    decreases buf.len() - i,
{
    if i < buf.len() {
        let b = buf[i];
        if !in_frame {
            if b == HDLC_FLAG {
                lemma_scan_consumed(buf, i + 1, true, false, Seq::empty());
            } else {
                lemma_scan_consumed(buf, i + 1, false, false, acc);
            }
        } else if esc {
            lemma_scan_consumed(buf, i + 1, true, false, acc.push(b ^ HDLC_XOR));
        } else if b == HDLC_ESCAPE {
            lemma_scan_consumed(buf, i + 1, true, true, acc);
        } else if b == HDLC_FLAG {
            if acc.len() < 2 {
                lemma_scan_consumed(buf, i + 1, false, false, acc);
            }
        } else {
            lemma_scan_consumed(buf, i + 1, true, false, acc.push(b));
        }
    }
}

/// A deframe attempt that reports anything but "incomplete" strictly
/// shrinks the buffer.
pub proof fn lemma_deframe_consumes(buf: Seq<u8>)
    ensures
        !(deframe_model(buf) is Incomplete) ==> deframe_rest(buf).len() < buf.len(),
{
    lemma_scan_consumed(buf, 0, false, false, Seq::empty());
}

} // verus!
