//! The wire format of synchronisation frames: a tag byte, then the payload.
//! Byte strings are length-prefixed with an unsigned variable-length integer
//! (seven bits per byte, low group first, high bit set on all but the last
//! byte), of at most four bytes.

use vstd::prelude::*;

verus! {

/// Tag of a document-sync frame.
pub const TAG_SYNC: u8 = 0;
/// Tag of an awareness-update frame.
pub const TAG_AWARENESS: u8 = 1;
/// Tag of an awareness-query frame.
pub const TAG_AWARENESS_QUERY: u8 = 2;
/// Tag of an authentication frame.
pub const TAG_AUTH: u8 = 3;
/// Tag of an application-defined frame.
pub const TAG_CUSTOM: u8 = 255;

/// Largest number of bytes in a length prefix.
pub const MAX_VARUINT_BYTES: usize = 4;
/// Every length below this fits in a length prefix.
pub const MAX_PAYLOAD_LEN: usize = 268435456;

/// The three kinds of document-sync frames.
#[derive(Debug)]
pub enum SyncMessage {
    /// A state vector: what the sender has.
    Step1(Vec<u8>),
    /// An update: what the receiver of a step 1 was missing.
    Step2(Vec<u8>),
    /// An incremental update.
    Update(Vec<u8>),
}

/// A protocol frame.
#[derive(Debug)]
pub enum Message {
    Sync(SyncMessage),
    Awareness(Vec<u8>),
    AwarenessQuery,
    /// `Some(reason)`: permission denied; `None`: permission granted.
    Auth(Option<Vec<u8>>),
    Custom(u8, Vec<u8>),
}

/// The mathematical value of a frame.
pub ghost enum MessageModel {
    Step1(Seq<u8>),
    Step2(Seq<u8>),
    Update(Seq<u8>),
    Awareness(Seq<u8>),
    AwarenessQuery,
    Auth(Option<Seq<u8>>),
    Custom(u8, Seq<u8>),
}

impl Message {
    pub open spec fn view(&self) -> MessageModel {
        match self {
            Message::Sync(SyncMessage::Step1(v)) => MessageModel::Step1(v@),
            Message::Sync(SyncMessage::Step2(v)) => MessageModel::Step2(v@),
            Message::Sync(SyncMessage::Update(v)) => MessageModel::Update(v@),
            Message::Awareness(v) => MessageModel::Awareness(v@),
            Message::AwarenessQuery => MessageModel::AwarenessQuery,
            Message::Auth(None) => MessageModel::Auth(None),
            Message::Auth(Some(v)) => MessageModel::Auth(Some(v@)),
            Message::Custom(t, v) => MessageModel::Custom(*t, v@),
        }
    }
}

/// The largest value, plus one, that `n` prefix bytes can hold.
pub open spec fn varuint_bound(n: nat) -> int
    decreases n,
{
    if n == 0 { 1 } else { 128 * varuint_bound((n - 1) as nat) }
}

/// The bytes of `v` as a variable-length integer.
pub open spec fn varuint_bytes(v: nat) -> Seq<u8>
    decreases v,
{
    if v < 128 {
        seq![v as u8]
    } else {
        seq![(v % 128 + 128) as u8] + varuint_bytes(v / 128)
    }
}

/// Reads a variable-length integer of at most `n` bytes at `pos`: its value and
/// the position after it.
pub open spec fn varuint_at(s: Seq<u8>, pos: int, n: nat) -> Option<(int, int)>
    decreases n,
{
    if n == 0 || pos < 0 || pos >= s.len() {
        None
    } else if s[pos] < 128 {
        Some((s[pos] as int, pos + 1))
    } else {
        match varuint_at(s, pos + 1, (n - 1) as nat) {
            Some((v, next)) => Some(((s[pos] - 128) + 128 * v, next)),
            None => None,
        }
    }
}

/// A length-prefixed byte string.
pub open spec fn buf_bytes(b: Seq<u8>) -> Seq<u8> {
    varuint_bytes(b.len()) + b
}

/// Reads a length-prefixed byte string at `pos`.
pub open spec fn buf_at(s: Seq<u8>, pos: int) -> Option<(Seq<u8>, int)> {
    match varuint_at(s, pos, MAX_VARUINT_BYTES as nat) {
        Some((len, start)) =>
            if start + len <= s.len() {
                Some((s.subrange(start, start + len), start + len))
            } else {
                None
            },
        None => None,
    }
}

/// The bytes of a frame.
pub open spec fn frame_bytes(m: MessageModel) -> Seq<u8> {
    match m {
        MessageModel::Step1(b) => seq![TAG_SYNC, 0u8] + buf_bytes(b),
        MessageModel::Step2(b) => seq![TAG_SYNC, 1u8] + buf_bytes(b),
        MessageModel::Update(b) => seq![TAG_SYNC, 2u8] + buf_bytes(b),
        MessageModel::Awareness(b) => seq![TAG_AWARENESS] + buf_bytes(b),
        MessageModel::AwarenessQuery => seq![TAG_AWARENESS_QUERY],
        MessageModel::Auth(None) => seq![TAG_AUTH, 1u8],
        MessageModel::Auth(Some(r)) => seq![TAG_AUTH, 0u8] + buf_bytes(r),
        MessageModel::Custom(t, b) => seq![TAG_CUSTOM, t] + buf_bytes(b),
    }
}

/// Every byte string in the frame fits a length prefix.
pub open spec fn frame_encodable(m: MessageModel) -> bool {
    match m {
        MessageModel::Step1(b) => b.len() < MAX_PAYLOAD_LEN,
        MessageModel::Step2(b) => b.len() < MAX_PAYLOAD_LEN,
        MessageModel::Update(b) => b.len() < MAX_PAYLOAD_LEN,
        MessageModel::Awareness(b) => b.len() < MAX_PAYLOAD_LEN,
        MessageModel::AwarenessQuery => true,
        MessageModel::Auth(None) => true,
        MessageModel::Auth(Some(r)) => r.len() < MAX_PAYLOAD_LEN,
        MessageModel::Custom(_, b) => b.len() < MAX_PAYLOAD_LEN,
    }
}

/// Reads one frame at `pos`: the frame and the position after it, or `None`
/// where the bytes there are not a frame.
pub open spec fn frame_at(s: Seq<u8>, pos: int) -> Option<(MessageModel, int)> {
    if pos < 0 || pos >= s.len() {
        None
    } else if s[pos] == TAG_AWARENESS_QUERY {
        Some((MessageModel::AwarenessQuery, pos + 1))
    } else if s[pos] == TAG_AWARENESS {
        match buf_at(s, pos + 1) {
            Some((b, next)) => Some((MessageModel::Awareness(b), next)),
            None => None,
        }
    } else if pos + 1 >= s.len() {
        None
    } else if s[pos] == TAG_SYNC {
        match buf_at(s, pos + 2) {
            Some((b, next)) =>
                if s[pos + 1] == 0 {
                    Some((MessageModel::Step1(b), next))
                } else if s[pos + 1] == 1 {
                    Some((MessageModel::Step2(b), next))
                } else if s[pos + 1] == 2 {
                    Some((MessageModel::Update(b), next))
                } else {
                    None
                },
            None => None,
        }
    } else if s[pos] == TAG_AUTH {
        if s[pos + 1] == 1 {
            Some((MessageModel::Auth(None), pos + 2))
        } else if s[pos + 1] == 0 {
            match buf_at(s, pos + 2) {
                Some((b, next)) => Some((MessageModel::Auth(Some(b)), next)),
                None => None,
            }
        } else {
            None
        }
    } else if s[pos] == TAG_CUSTOM {
        match buf_at(s, pos + 2) {
            Some((b, next)) => Some((MessageModel::Custom(s[pos + 1], b), next)),
            None => None,
        }
    } else {
        None
    }
}

/// Where a frame that cannot be decoded ends, when its bounds can still be
/// read: a sync frame of an unknown kind (its payload is length-prefixed) and
/// an authentication frame of an unknown kind (two bytes). Elsewhere the
/// boundary is unknown.
pub open spec fn skip_at(s: Seq<u8>, pos: int) -> Option<int> {
    if pos < 0 || pos + 1 >= s.len() {
        None
    } else if s[pos] == TAG_SYNC && s[pos + 1] > 2 {
        match buf_at(s, pos + 2) {
            Some((_, next)) => Some(next),
            None => None,
        }
    } else if s[pos] == TAG_AUTH && s[pos + 1] > 1 {
        Some(pos + 2)
    } else {
        None
    }
}

/// The frames of `s` from `pos` on, read one after another until the end;
/// a frame that cannot be decoded is dropped and reading resumes after it,
/// and reading stops at bytes whose frame boundary cannot be found.
pub open spec fn frames_from(s: Seq<u8>, pos: int) -> Seq<MessageModel>
    decreases s.len() - pos,
{
    if pos < 0 || pos >= s.len() {
        Seq::empty()
    } else {
        match frame_at(s, pos) {
            Some((m, next)) =>
                if pos < next {
                    seq![m] + frames_from(s, next)
                } else {
                    Seq::empty()
                },
            None => match skip_at(s, pos) {
                Some(next) =>
                    if pos < next {
                        frames_from(s, next)
                    } else {
                        Seq::empty()
                    },
                None => Seq::empty(),
            },
        }
    }
}

proof fn lemma_bound_positive(n: nat)
    ensures
        varuint_bound(n) >= 1,
    decreases n,
{
    if n > 0 {
        lemma_bound_positive((n - 1) as nat);
    }
}

proof fn lemma_bound_values()
    ensures
        varuint_bound(0) == 1,
        varuint_bound(1) == 128,
        varuint_bound(2) == 16384,
        varuint_bound(3) == 2097152,
        varuint_bound(4) == 268435456,
{
    reveal_with_fuel(varuint_bound, 5);
}

/// A value below the bound of `n` bytes, written at `pos`, reads back.
pub proof fn lemma_varuint_round_trip(v: nat, s: Seq<u8>, pos: int, n: nat)
    requires
        1 <= n,
        v < varuint_bound(n),
        0 <= pos,
        pos + varuint_bytes(v).len() <= s.len(),
        s.subrange(pos, pos + varuint_bytes(v).len()) == varuint_bytes(v),
    ensures
        varuint_at(s, pos, n) == Some((v as int, pos + varuint_bytes(v).len())),
    decreases v,
{
    let b = varuint_bytes(v);
    assert(s[pos] == s.subrange(pos, pos + b.len())[0]);
    if v >= 128 {
        let rest = varuint_bytes(v / 128);
        assert(b == seq![(v % 128 + 128) as u8] + rest);
        assert(s.subrange(pos + 1, pos + 1 + rest.len()) =~= b.subrange(1, b.len() as int));
        assert(b.subrange(1, b.len() as int) =~= rest);
        lemma_bound_positive((n - 1) as nat);
        assert(v / 128 < varuint_bound((n - 1) as nat)) by (nonlinear_arith)
            requires
                v < 128 * varuint_bound((n - 1) as nat),
        ;
        assert(n - 1 >= 1) by {
            if n == 1 {
                assert(varuint_bound(0) == 1);
            }
        }
        lemma_varuint_round_trip(v / 128, s, pos + 1, (n - 1) as nat);
    }
}

/// Appends the bytes of `v` as a variable-length integer.
pub fn write_varuint(out: &mut Vec<u8>, v: usize)
    ensures
        final(out)@ == old(out)@ + varuint_bytes(v as nat),
{
    let mut rest: usize = v;
    while rest >= 128
        invariant
            old(out)@ + varuint_bytes(v as nat) == out@ + varuint_bytes(rest as nat),
        decreases rest,
    {
        let ghost before = out@;
        out.push((rest % 128 + 128) as u8);
        assert(varuint_bytes(rest as nat) == seq![(rest % 128 + 128) as u8] + varuint_bytes((rest / 128) as nat));
        assert(out@ + varuint_bytes((rest / 128) as nat) =~= before + varuint_bytes(rest as nat));
        rest = rest / 128;
    }
    let ghost before = out@;
    out.push(rest as u8);
    assert(out@ =~= before + varuint_bytes(rest as nat));
}

/// Reads a variable-length integer of at most `n` bytes at `pos`.
pub fn read_varuint(s: &[u8], pos: usize, n: usize) -> (r: Option<(usize, usize)>)
    requires
        n <= MAX_VARUINT_BYTES,
    ensures
        r matches Some((v, next)) ==> varuint_at(s@, pos as int, n as nat) == Some((v as int, next as int)) && v < varuint_bound(n as nat),
        r is None ==> varuint_at(s@, pos as int, n as nat) is None,
    decreases n,
{
    if n == 0 || pos >= s.len() {
        return None;
    }
    let b = s[pos];
    if b < 128 {
        proof { lemma_bound_positive((n - 1) as nat); }
        assert(b < varuint_bound(n as nat)) by (nonlinear_arith)
            requires
                b < 128,
                varuint_bound(n as nat) == 128 * varuint_bound((n - 1) as nat),
                varuint_bound((n - 1) as nat) >= 1,
        ;
        return Some((b as usize, pos + 1));
    }
    match read_varuint(s, pos + 1, n - 1) {
        Some((v, next)) => {
            proof { lemma_bound_values(); }
            let w = (b - 128) as usize + 128 * v;
            assert((b - 128) + 128 * v < varuint_bound(n as nat)) by (nonlinear_arith)
                requires
                    b - 128 < 128,
                    v < varuint_bound((n - 1) as nat),
                    varuint_bound(n as nat) == 128 * varuint_bound((n - 1) as nat),
            ;
            Some((w, next))
        },
        None => None,
    }
}

/// Appends a length-prefixed byte string.
pub fn write_buf(out: &mut Vec<u8>, b: &Vec<u8>)
    requires
        b@.len() < MAX_PAYLOAD_LEN,
    ensures
        final(out)@ == old(out)@ + buf_bytes(b@),
{
    write_varuint(out, b.len());
    let ghost mid = out@;
    let mut i: usize = 0;
    while i < b.len()
        invariant
            i <= b@.len(),
            out@ == mid + b@.subrange(0, i as int),
        decreases b@.len() - i,
    {
        out.push(b[i]);
        assert(out@ =~= mid + b@.subrange(0, i + 1));
        i = i + 1;
    }
    assert(b@.subrange(0, i as int) =~= b@);
    assert(out@ =~= old(out)@ + buf_bytes(b@));
}

/// Reads a length-prefixed byte string at `pos`.
pub fn read_buf(s: &[u8], pos: usize) -> (r: Option<(Vec<u8>, usize)>)
    ensures
        r matches Some((b, next)) ==> buf_at(s@, pos as int) == Some((b@, next as int)),
        r is None ==> buf_at(s@, pos as int) is None,
{
    let (len, start) = match read_varuint(s, pos, MAX_VARUINT_BYTES) {
        Some(p) => p,
        None => { return None; },
    };
    assert(start <= s@.len()) by {
        lemma_varuint_next(s@, pos as int, MAX_VARUINT_BYTES as nat);
    }
    if len > s.len() - start {
        return None;
    }
    let end = start + len;
    let mut b: Vec<u8> = Vec::new();
    let mut i: usize = start;
    while i < end
        invariant
            start <= i <= end,
            end <= s@.len(),
            b@ == s@.subrange(start as int, i as int),
        decreases end - i,
    {
        b.push(s[i]);
        assert(b@ =~= s@.subrange(start as int, i + 1));
        i = i + 1;
    }
    Some((b, end))
}

/// The position after a variable-length integer lies within the bytes, past its start.
pub proof fn lemma_varuint_next(s: Seq<u8>, pos: int, n: nat)
    ensures
        varuint_at(s, pos, n) matches Some((v, next)) ==> pos < next <= s.len() && v >= 0,
    decreases n,
{
    if n > 0 && 0 <= pos < s.len() && s[pos] >= 128 {
        lemma_varuint_next(s, pos + 1, (n - 1) as nat);
    }
}

/// Reads one frame at `pos`.
pub fn read_frame(s: &[u8], pos: usize) -> (r: Option<(Message, usize)>)
    ensures
        r matches Some((m, next)) ==> frame_at(s@, pos as int) == Some((m@, next as int)),
        r is None ==> frame_at(s@, pos as int) is None,
{
    if pos >= s.len() {
        return None;
    }
    let tag = s[pos];
    if tag == TAG_AWARENESS_QUERY {
        return Some((Message::AwarenessQuery, pos + 1));
    }
    if tag == TAG_AWARENESS {
        return match read_buf(s, pos + 1) {
            Some((b, next)) => Some((Message::Awareness(b), next)),
            None => None,
        };
    }
    if pos + 1 >= s.len() {
        return None;
    }
    let sub = s[pos + 1];
    if tag == TAG_SYNC {
        match read_buf(s, pos + 2) {
            Some((b, next)) => {
                if sub == 0 {
                    Some((Message::Sync(SyncMessage::Step1(b)), next))
                } else if sub == 1 {
                    Some((Message::Sync(SyncMessage::Step2(b)), next))
                } else if sub == 2 {
                    Some((Message::Sync(SyncMessage::Update(b)), next))
                } else {
                    None
                }
            },
            None => None,
        }
    } else if tag == TAG_AUTH {
        if sub == 1 {
            Some((Message::Auth(None), pos + 2))
        } else if sub == 0 {
            match read_buf(s, pos + 2) {
                Some((b, next)) => Some((Message::Auth(Some(b)), next)),
                None => None,
            }
        } else {
            None
        }
    } else if tag == TAG_CUSTOM {
        match read_buf(s, pos + 2) {
            Some((b, next)) => Some((Message::Custom(sub, b), next)),
            None => None,
        }
    } else {
        None
    }
}

/// Where an undecodable frame at `pos` ends, when that can be read.
pub fn skip_frame(s: &[u8], pos: usize) -> (r: Option<usize>)
    ensures
        match r {
            Some(n) => skip_at(s@, pos as int) == Some(n as int),
            None => skip_at(s@, pos as int) is None,
        },
{
    if pos >= s.len() || pos + 1 >= s.len() {
        return None;
    }
    if s[pos] == TAG_SYNC && s[pos + 1] > 2 {
        match read_buf(s, pos + 2) {
            Some((_, next)) => Some(next),
            None => None,
        }
    } else if s[pos] == TAG_AUTH && s[pos + 1] > 1 {
        Some(pos + 2)
    } else {
        None
    }
}

/// The bytes of one frame.
pub fn encode_message(m: &Message) -> (r: Vec<u8>)
    requires
        frame_encodable(m@),
    ensures
        r@ == frame_bytes(m@),
{
    let mut out: Vec<u8> = Vec::new();
    match m {
        Message::Sync(SyncMessage::Step1(b)) => {
            out.push(TAG_SYNC);
            out.push(0);
            write_buf(&mut out, b);
        },
        Message::Sync(SyncMessage::Step2(b)) => {
            out.push(TAG_SYNC);
            out.push(1);
            write_buf(&mut out, b);
        },
        Message::Sync(SyncMessage::Update(b)) => {
            out.push(TAG_SYNC);
            out.push(2);
            write_buf(&mut out, b);
        },
        Message::Awareness(b) => {
            out.push(TAG_AWARENESS);
            write_buf(&mut out, b);
        },
        Message::AwarenessQuery => {
            out.push(TAG_AWARENESS_QUERY);
        },
        Message::Auth(None) => {
            out.push(TAG_AUTH);
            out.push(1);
        },
        Message::Auth(Some(r)) => {
            out.push(TAG_AUTH);
            out.push(0);
            write_buf(&mut out, r);
        },
        Message::Custom(t, b) => {
            out.push(TAG_CUSTOM);
            out.push(*t);
            write_buf(&mut out, b);
        },
    }
    assert(out@ =~= frame_bytes(m@));
    out
}

/// The bytes of `s` from `pos` on are a whole number of frames.
pub open spec fn well_framed(s: Seq<u8>, pos: int) -> bool
    decreases s.len() - pos,
{
    if pos < 0 {
        false
    } else if pos >= s.len() {
        true
    } else {
        match frame_at(s, pos) {
            Some((m, next)) => pos < next && well_framed(s, next),
            None => false,
        }
    }
}

/// Every frame in `s`, in order, up to the end or to the first bytes that are
/// not a frame; and whether the bytes were a whole number of frames.
pub fn decode_stream(s: &[u8]) -> (r: (Vec<Message>, bool))
    ensures
        r.0@.map_values(|m: Message| m@) == frames_from(s@, 0),
        r.1 == well_framed(s@, 0),
{
    let mut r: Vec<Message> = Vec::new();
    let mut pos: usize = 0;
    let mut complete = true;
    while pos < s.len()
        invariant
            pos <= s@.len(),
            frames_from(s@, 0) == r@.map_values(|m: Message| m@) + frames_from(s@, pos as int),
            !complete ==> !well_framed(s@, 0),
            complete ==> well_framed(s@, 0) == well_framed(s@, pos as int),
        decreases s@.len() - pos,
    {
        match read_frame(s, pos) {
            Some((m, next)) => {
                if next <= pos || next > s.len() {
                    assert(r@.map_values(|m: Message| m@) + Seq::<MessageModel>::empty() =~= r@.map_values(|m: Message| m@));
                    return (r, false);
                }
                let ghost before = r@.map_values(|m: Message| m@);
                assert(frames_from(s@, pos as int) == seq![m@] + frames_from(s@, next as int));
                r.push(m);
                assert(r@.map_values(|m: Message| m@) =~= before.push(r@.last()@));
                assert(before + frames_from(s@, pos as int) =~= r@.map_values(|m: Message| m@) + frames_from(s@, next as int));
                pos = next;
            },
            None => {
                complete = false;
                match skip_frame(s, pos) {
                    Some(next) => {
                        if next <= pos || next > s.len() {
                            assert(frames_from(s@, pos as int) =~= Seq::<MessageModel>::empty());
                            assert(r@.map_values(|m: Message| m@) + Seq::<MessageModel>::empty() =~= r@.map_values(|m: Message| m@));
                            return (r, false);
                        }
                        pos = next;
                    },
                    None => {
                        assert(frames_from(s@, pos as int) =~= Seq::<MessageModel>::empty());
                        assert(r@.map_values(|m: Message| m@) + Seq::<MessageModel>::empty() =~= r@.map_values(|m: Message| m@));
                        return (r, false);
                    },
                }
            },
        }
    }
    assert(r@.map_values(|m: Message| m@) + Seq::<MessageModel>::empty() =~= r@.map_values(|m: Message| m@));
    (r, complete)
}

/// Every frame in `s`, in order, up to the end or to the first bytes that are
/// not a frame.
pub fn decode_messages(s: &[u8]) -> (r: Vec<Message>)
    ensures
        r@.map_values(|m: Message| m@) == frames_from(s@, 0),
{
    decode_stream(s).0
}

/// A length-prefixed byte string, written at `pos`, reads back.
pub proof fn lemma_buf_round_trip(b: Seq<u8>, s: Seq<u8>, pos: int)
    requires
        b.len() < MAX_PAYLOAD_LEN,
        0 <= pos,
        pos + buf_bytes(b).len() <= s.len(),
        s.subrange(pos, pos + buf_bytes(b).len()) == buf_bytes(b),
    ensures
        buf_at(s, pos) == Some((b, pos + buf_bytes(b).len())),
{
    let w = buf_bytes(b);
    let k = varuint_bytes(b.len()).len();
    lemma_bound_values();
    assert(s.subrange(pos, pos + k) =~= w.subrange(0, k as int));
    assert(w.subrange(0, k as int) =~= varuint_bytes(b.len()));
    lemma_varuint_round_trip(b.len(), s, pos, MAX_VARUINT_BYTES as nat);
    assert(s.subrange(pos + k, pos + k + b.len()) =~= w.subrange(k as int, w.len() as int));
    assert(w.subrange(k as int, w.len() as int) =~= b);
}

/// Decoding the bytes of a frame, whatever follows them, gives back the frame
/// and the position just past it.
pub proof fn law_frame_round_trip(m: MessageModel, rest: Seq<u8>)
    requires
        frame_encodable(m),
    ensures
        frame_at(frame_bytes(m) + rest, 0) == Some((m, frame_bytes(m).len() as int)),
{
    let s = frame_bytes(m) + rest;
    let f = frame_bytes(m);
    assert(s.subrange(0, f.len() as int) =~= f);
    match m {
        MessageModel::Step1(b) => {
            assert(s.subrange(2, f.len() as int) =~= buf_bytes(b));
            lemma_buf_round_trip(b, s, 2);
        },
        MessageModel::Step2(b) => {
            assert(s.subrange(2, f.len() as int) =~= buf_bytes(b));
            lemma_buf_round_trip(b, s, 2);
        },
        MessageModel::Update(b) => {
            assert(s.subrange(2, f.len() as int) =~= buf_bytes(b));
            lemma_buf_round_trip(b, s, 2);
        },
        MessageModel::Awareness(b) => {
            assert(s.subrange(1, f.len() as int) =~= buf_bytes(b));
            lemma_buf_round_trip(b, s, 1);
        },
        MessageModel::AwarenessQuery => {},
        MessageModel::Auth(None) => {},
        MessageModel::Auth(Some(r)) => {
            assert(s.subrange(2, f.len() as int) =~= buf_bytes(r));
            lemma_buf_round_trip(r, s, 2);
        },
        MessageModel::Custom(t, b) => {
            assert(s.subrange(2, f.len() as int) =~= buf_bytes(b));
            lemma_buf_round_trip(b, s, 2);
        },
    }
}

/// The bytes of several frames, one after another.
pub open spec fn frames_bytes(ms: Seq<MessageModel>) -> Seq<u8>
    decreases ms.len(),
{
    if ms.len() == 0 {
        Seq::empty()
    } else {
        frame_bytes(ms[0]) + frames_bytes(ms.drop_first())
    }
}

/// A stream of encoded frames decodes to the same frames, in the same order.
pub proof fn law_stream_round_trip(ms: Seq<MessageModel>)
    requires
        forall|i: int| 0 <= i < ms.len() ==> frame_encodable(#[trigger] ms[i]),
    ensures
        frames_from(frames_bytes(ms), 0) == ms,
    decreases ms.len(),
{
    if ms.len() > 0 {
        let tail = ms.drop_first();
        assert forall|i: int| 0 <= i < tail.len() implies frame_encodable(#[trigger] tail[i]) by {
            assert(tail[i] == ms[i + 1]);
        }
        law_stream_round_trip(tail);
        let f = frame_bytes(ms[0]);
        let t = frames_bytes(tail);
        assert(frame_encodable(ms[0]));
        law_frame_round_trip(ms[0], t);
        lemma_frames_shift(f, t);
        assert(seq![ms[0]] + tail =~= ms);
    } else {
        assert(frames_bytes(ms).len() == 0);
        assert(frames_from(frames_bytes(ms), 0) =~= ms);
    }
}

/// Reading past a prefix of `f.len()` bytes reads the remaining bytes alone.
pub proof fn lemma_frames_shift(f: Seq<u8>, t: Seq<u8>)
    requires
        f.len() > 0,
    ensures
        frames_from(f + t, f.len() as int) == frames_from(t, 0),
{
    lemma_frames_from_shift(f, t, 0);
}

proof fn lemma_frame_at_shift(f: Seq<u8>, t: Seq<u8>, p: int)
    requires
        0 <= p,
    ensures
        frame_at(f + t, f.len() + p) == (match frame_at(t, p) {
            Some((m, next)) => Some((m, next + f.len())),
            None => None,
        }),
{
    let s = f + t;
    let k = f.len() as int;
    if p < t.len() {
        assert(s[k + p] == t[p]);
    }
    if p + 1 < t.len() {
        assert(s[k + p + 1] == t[p + 1]);
    }
    lemma_buf_at_shift(f, t, p + 1);
    lemma_buf_at_shift(f, t, p + 2);
}

proof fn lemma_buf_at_shift(f: Seq<u8>, t: Seq<u8>, p: int)
    requires
        0 <= p,
    ensures
        buf_at(f + t, f.len() + p) == (match buf_at(t, p) {
            Some((b, next)) => Some((b, next + f.len())),
            None => None,
        }),
{
    let s = f + t;
    let k = f.len() as int;
    lemma_varuint_at_shift(f, t, p, MAX_VARUINT_BYTES as nat);
    match varuint_at(t, p, MAX_VARUINT_BYTES as nat) {
        Some((len, start)) => {
            lemma_varuint_next(t, p, MAX_VARUINT_BYTES as nat);
            if start + len <= t.len() {
                assert(s.subrange(k + start, k + start + len) =~= t.subrange(start, start + len));
            }
        },
        None => {},
    }
}

proof fn lemma_varuint_at_shift(f: Seq<u8>, t: Seq<u8>, p: int, n: nat)
    requires
        0 <= p,
    ensures
        varuint_at(f + t, f.len() + p, n) == (match varuint_at(t, p, n) {
            Some((v, next)) => Some((v, next + f.len())),
            None => None,
        }),
    decreases n,
{
    let s = f + t;
    if n > 0 && p < t.len() {
        assert(s[f.len() + p] == t[p]);
        lemma_varuint_at_shift(f, t, p + 1, (n - 1) as nat);
    }
}

proof fn lemma_frames_from_shift(f: Seq<u8>, t: Seq<u8>, p: int)
    requires
        0 <= p,
    ensures
        frames_from(f + t, f.len() + p) == frames_from(t, p),
    decreases t.len() - p,
{
    lemma_frame_at_shift(f, t, p);
    lemma_buf_at_shift(f, t, p + 2);
    let s = f + t;
    if p + 1 < t.len() {
        assert(s[f.len() + p] == t[p]);
        assert(s[f.len() + p + 1] == t[p + 1]);
    }
    if p < t.len() {
        match frame_at(t, p) {
            Some((m, next)) => {
                if p < next {
                    lemma_frames_from_shift(f, t, next);
                }
            },
            None => {
                match skip_at(t, p) {
                    Some(next) => {
                        if p < next {
                            lemma_frames_from_shift(f, t, next);
                        }
                    },
                    None => {},
                }
            },
        }
    }
}

} // verus!
