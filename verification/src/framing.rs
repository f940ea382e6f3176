use vstd::prelude::*;

verus! {

/// Longest payload accepted unless the length check is skipped.
pub const MAX_PAYLOAD_LEN: usize = 128;

/// Why bytes could not be turned into art.
#[derive(Clone, Copy, Debug, PartialEq, Eq, Structural)]
pub enum EncodeError {
    /// The payload is longer than `MAX_PAYLOAD_LEN` bytes.
    TooLong,
    /// No canvas size tried gave an image that reads back as the payload.
    NoFittingSize,
}

impl EncodeError {
    /// The message shown for this error.
    pub fn message(&self) -> (m: &'static str)
        ensures
            self == EncodeError::TooLong ==> m@ == "Byte length is too big"@,
            self == EncodeError::NoFittingSize ==> m@ == "Couldn't encode the bytes"@,
    {
        match self {
            EncodeError::TooLong => "Byte length is too big",
            EncodeError::NoFittingSize => "Couldn't encode the bytes",
        }
    }
}

/// The bytes that are drawn for a payload: one byte holding the payload's
/// length (modulo 256), then the payload.
pub open spec fn framed(payload: Seq<u8>) -> Seq<u8> {
    seq![(payload.len() % 256) as u8] + payload
}

/// `r` cut or padded with zero bytes to length `n`.
pub open spec fn fit_length(r: Seq<u8>, n: nat) -> Seq<u8> {
    Seq::new(n, |i: int| if i < r.len() { r[i] } else { 0u8 })
}

/// The bytes that a decoded stream stands for: as many as its first byte
/// announces, plus that first byte. An empty stream stands for the empty
/// payload, that is for the single length byte 0.
pub open spec fn announced(r: Seq<u8>) -> Seq<u8> {
    if r.len() == 0 {
        seq![0u8]
    } else {
        fit_length(r, (r[0] + 1) as nat)
    }
}

/// Whether the bytes `r` decoded from a candidate image stand for the framed
/// bytes `f`: an empty stream stands only for an empty payload, otherwise the
/// announced length must be that of the payload and the announced bytes must
/// be `f`. An empty stream is accepted for the empty payload, and reads back
/// as it (`lemma_empty_decoding`).
pub open spec fn decoding_matches(f: Seq<u8>, r: Seq<u8>) -> bool {
    if r.len() == 0 {
        f.len() == 1
    } else {
        r[0] as int == f.len() - 1 && announced(r) == f
    }
}

/// Frames `payload` for drawing. Fails with `TooLong` exactly when the
/// payload exceeds `MAX_PAYLOAD_LEN` bytes and the length check is not
/// skipped.
pub fn frame_payload(payload: &[u8], skip_length_check: bool) -> (res: Result<Vec<u8>, EncodeError>)
    ensures
        res is Ok <==> (skip_length_check || payload@.len() <= MAX_PAYLOAD_LEN),
        res matches Ok(f) ==> f@ == framed(payload@),
        res matches Err(e) ==> e == EncodeError::TooLong,
{
    if !skip_length_check && payload.len() > MAX_PAYLOAD_LEN {
        return Err(EncodeError::TooLong);
    }
    let mut f: Vec<u8> = Vec::new();
    f.push((payload.len() % 256) as u8);
    let mut i: usize = 0;
    while i < payload.len()
        invariant
            i <= payload@.len(),
            f@ == seq![(payload@.len() % 256) as u8] + payload@.take(i as int),
        decreases payload@.len() - i,
    {
        f.push(payload[i]);
        i = i + 1;
        assert(f@ =~= seq![(payload@.len() % 256) as u8] + payload@.take(i as int));
    }
    assert(payload@.take(payload@.len() as int) =~= payload@);
    Ok(f)
}

/// `r` cut or padded with zero bytes to length `n`.
fn fit_to(r: &[u8], n: usize) -> (v: Vec<u8>)
    ensures
        v@ == fit_length(r@, n as nat),
{
    let mut v: Vec<u8> = Vec::new();
    let mut i: usize = 0;
    while i < n
        invariant
            i <= n,
            v@ == fit_length(r@, i as nat),
        decreases n - i,
    {
        if i < r.len() {
            v.push(r[i]);
        } else {
            v.push(0);
        }
        i = i + 1;
        assert(v@ =~= fit_length(r@, i as nat));
    }
    v
}

/// The bytes that a decoded stream stands for: its first byte announces how
/// many follow; missing bytes read as zero and extra bytes are dropped. An
/// empty stream stands for the empty payload: the single byte 0.
pub fn decode_image(raw: &[u8]) -> (bytes: Vec<u8>)
    ensures
        bytes@ == announced(raw@),
        raw@.len() == 0 ==> bytes@ == seq![0u8],
        raw@.len() > 0 ==> bytes@.len() == raw@[0] + 1 && bytes@[0] == raw@[0],
        raw@.len() > 0 ==> forall|i: int|
            0 <= i < bytes@.len() ==> #[trigger] bytes@[i] == if i < raw@.len() {
                raw@[i]
            } else {
                0u8
            },
{
    if raw.len() == 0 {
        let mut v: Vec<u8> = Vec::new();
        v.push(0);
        assert(v@ =~= seq![0u8]);
        return v;
    }
    fit_to(raw, raw[0] as usize + 1)
}

/// The payload that a decoded stream stands for: the announced bytes after
/// the length byte; empty for an empty stream.
pub fn payload_of(raw: &[u8]) -> (payload: Vec<u8>)
    ensures
        payload@ == announced(raw@).drop_first(),
        raw@.len() == 0 ==> payload@.len() == 0,
        raw@.len() > 0 ==> payload@.len() == raw@[0],
        forall|i: int|
            0 <= i < payload@.len() ==> #[trigger] payload@[i] == if i + 1 < raw@.len() {
                raw@[i + 1]
            } else {
                0u8
            },
{
    if raw.len() == 0 {
        let payload: Vec<u8> = Vec::new();
        assert(payload@ =~= announced(raw@).drop_first());
        return payload;
    }
    let n = raw[0] as usize;
    let mut payload: Vec<u8> = Vec::new();
    let mut i: usize = 0;
    while i < n
        invariant
            i <= n,
            raw@.len() > 0,
            n == raw@[0],
            payload@ == announced(raw@).drop_first().take(i as int),
        decreases n - i,
    {
        if i + 1 < raw.len() {
            payload.push(raw[i + 1]);
        } else {
            payload.push(0);
        }
        i = i + 1;
        assert(payload@ =~= announced(raw@).drop_first().take(i as int));
    }
    assert(announced(raw@).drop_first().take(n as int) =~= announced(raw@).drop_first());
    payload
}

/// Whether the bytes `r` decoded from an image read back as the framed bytes
/// `f`: an empty stream reads back only as the empty payload; otherwise the
/// first byte must announce the payload's length, and `r`, cut or padded
/// with zero bytes to the length of `f`, must be `f`.
pub open spec fn reads_back_as(f: Seq<u8>, r: Seq<u8>) -> bool {
    ||| r.len() == 0 && f.len() == 1
    ||| r.len() > 0 && r[0] == f.len() - 1 && forall|i: int|
        0 <= i < f.len() ==> #[trigger] f[i] == if i < r.len() {
            r[i]
        } else {
            0u8
        }
}

/// A decoding is accepted exactly when it reads back as the framed bytes: a
/// stream that announces the payload's length is accepted when it agrees
/// with the framed bytes on its own bytes and holds no more than zeros where
/// it is short, and only then.
pub proof fn lemma_acceptance_is_read_back(f: Seq<u8>, r: Seq<u8>)
    requires
        f.len() >= 1,
    ensures
        decoding_matches(f, r) <==> reads_back_as(f, r),
{
    if r.len() > 0 && r[0] == f.len() - 1 {
        assert((r[0] + 1) as nat == f.len());
        if reads_back_as(f, r) {
            assert(fit_length(r, f.len()) =~= f);
        }
    }
}

/// Whether the bytes `decoded` from a candidate image stand for the framed
/// bytes `f`, as `decoding_matches` states.
pub fn accepts_decoding(f: &[u8], decoded: &[u8]) -> (ok: bool)
    requires
        f@.len() >= 1,
    ensures
        ok == decoding_matches(f@, decoded@),
        ok == reads_back_as(f@, decoded@),
{
    proof {
        lemma_acceptance_is_read_back(f@, decoded@);
    }
    if decoded.len() == 0 {
        return f.len() == 1;
    }
    if decoded[0] as usize != f.len() - 1 {
        return false;
    }
    let r = decode_image(decoded);
    let mut i: usize = 0;
    while i < f.len()
        invariant
            r@.len() == f@.len(),
            decoded@.len() > 0,
            r@ == announced(decoded@),
            i <= f@.len(),
            forall|j: int| 0 <= j < i ==> r@[j] == f@[j],
        decreases f@.len() - i,
    {
        if r[i] != f[i] {
            assert(r@[i as int] != f@[i as int]);
            assert(r@ != f@);
            return false;
        }
        i = i + 1;
    }
    assert(r@ =~= f@);
    true
}

/// The first canvas size tried when looking for an image of a payload.
pub const FIRST_SEARCH_SIZE: usize = 1;

/// The canvas sizes tried run up to, not including, this one.
pub const SEARCH_END_SIZE: usize = 32;

/// What to do after trying a canvas size.
#[derive(Clone, Copy, Debug, PartialEq, Eq, Structural)]
pub enum SearchStep {
    /// The image reads back as the payload: keep it.
    Accept,
    /// Try the next canvas size.
    TrySize(usize),
    /// Every size has been tried.
    GiveUp,
}

/// Decides the search for an image after the image of canvas size `size`
/// was decoded to `decoded`: accept it when it reads back as the framed
/// bytes `f`, else try the next size below `SEARCH_END_SIZE`, else give up.
pub fn search_step(f: &[u8], size: usize, decoded: &[u8]) -> (step: SearchStep)
    requires
        f@.len() >= 1,
        size < SEARCH_END_SIZE,
    ensures
        decoding_matches(f@, decoded@) ==> step == SearchStep::Accept,
        !decoding_matches(f@, decoded@) && size + 1 < SEARCH_END_SIZE ==> step
            == SearchStep::TrySize((size + 1) as usize),
        !decoding_matches(f@, decoded@) && size + 1 >= SEARCH_END_SIZE ==> step
            == SearchStep::GiveUp,
        step == SearchStep::Accept <==> reads_back_as(f@, decoded@),
        !reads_back_as(f@, decoded@) && size + 1 < SEARCH_END_SIZE ==> step
            == SearchStep::TrySize((size + 1) as usize),
        !reads_back_as(f@, decoded@) && size + 1 >= SEARCH_END_SIZE ==> step
            == SearchStep::GiveUp,
{
    if accepts_decoding(f, decoded) {
        SearchStep::Accept
    } else if size + 1 < SEARCH_END_SIZE {
        SearchStep::TrySize(size + 1)
    } else {
        SearchStep::GiveUp
    }
}

/// Framing keeps the payload after the length byte, and the length byte is
/// the payload's length when it fits in a byte.
pub proof fn lemma_framed_payload(payload: Seq<u8>)
    ensures
        framed(payload).len() == payload.len() + 1,
        framed(payload).drop_first() == payload,
        payload.len() < 256 ==> framed(payload)[0] == payload.len(),
{
    assert(framed(payload).drop_first() =~= payload);
}

/// The one decoding that is accepted without a length byte: an empty stream
/// is accepted for a payload exactly when the payload is empty, and it reads
/// back as the framed empty payload.
pub proof fn lemma_empty_decoding(payload: Seq<u8>)
    ensures
        decoding_matches(framed(payload), Seq::<u8>::empty()) <==> payload.len() == 0,
        announced(Seq::<u8>::empty()) == framed(Seq::<u8>::empty()),
{
    assert(framed(Seq::<u8>::empty()) =~= seq![0u8]);
}

/// An image accepted for a payload decodes back to it: when the bytes read
/// from the image are accepted for the framed payload, the bytes they stand
/// for are the framed payload, and the payload they stand for is the payload
/// itself.
pub proof fn lemma_accepted_decodes_to_payload(payload: Seq<u8>, decoded: Seq<u8>)
    requires
        decoding_matches(framed(payload), decoded),
    ensures
        announced(decoded) == framed(payload),
        announced(decoded).drop_first() == payload,
{
    lemma_framed_payload(payload);
    if decoded.len() == 0 {
        lemma_empty_decoding(payload);
        assert(payload =~= Seq::<u8>::empty());
    }
}

} // verus!
