//! Wire codec: a recursive, length/sigil-prefixed encoding of typed values.
//! A `Frame` is one decoded/encoded unit of the protocol, either a request
//! argument array or a typed reply value.  Byte-exact format:
//! `+<text>\r\n` simple string (no CR in the text), `:<integer>\r\n` signed
//! decimal, `$<length>\r\n<bytes>\r\n` binary string (`$-1\r\n` is null),
//! `*<count>\r\n<count frames>` array, `-<text>\r\n` error, and the fixed
//! literal `+OK\r\n` for the dedicated status value.

use vstd::prelude::*;
use vstd::string::StringSliceAdditionalSpecFns;
use vstd::utf8::{decode_utf8, encode_utf8, valid_utf8};
use vstd::string::StrSliceExecFns;

verus! {

broadcast use vstd::std_specs::vec::axiom_vec_index_decreases, vstd::utf8::encode_utf8_decode_utf8;

/// One unit of the wire protocol.
pub enum Frame {
    Okay,
    Integer(i64),
    SimpleString(String),
    Array(Vec<Frame>),
    BatchString(String),
    Error(String),
    Null,
}

/// Mathematical model of a `Frame`: string contents are modelled by their
/// UTF-8 bytes, integers by unbounded integers.
pub enum FrameModel {
    Okay,
    Integer(int),
    Simple(Seq<u8>),
    Array(Seq<FrameModel>),
    Batch(Seq<u8>),
    Error(Seq<u8>),
    Null,
}

/// Models of a sequence of frames, elementwise.
pub open spec fn models_of(v: Seq<Frame>) -> Seq<FrameModel>
    decreases v,
{
    Seq::new(
        v.len(),
        |i: int|
            if 0 <= i < v.len() {
                v[i].model()
            } else {
                FrameModel::Null
            },
    )
}

impl Frame {
    /// The model of this frame.
    pub open spec fn model(self) -> FrameModel
        decreases self,
    {
        match self {
            Frame::Okay => FrameModel::Okay,
            Frame::Integer(i) => FrameModel::Integer(i as int),
            Frame::SimpleString(s) => FrameModel::Simple(encode_utf8(s@)),
            Frame::Array(v) => FrameModel::Array(models_of(v@)),
            Frame::BatchString(s) => FrameModel::Batch(encode_utf8(s@)),
            Frame::Error(s) => FrameModel::Error(encode_utf8(s@)),
            Frame::Null => FrameModel::Null,
        }
    }
}

impl View for Frame {
    type V = FrameModel;

    open spec fn view(&self) -> FrameModel {
        self.model()
    }
}

/// Decimal digit bytes of `n`, most significant first, no leading zeros.
pub open spec fn dec_digits(n: nat) -> Seq<u8>
    decreases n,
{
    if n < 10 {
        seq![(48 + n) as u8]
    } else {
        dec_digits(n / 10).push((48 + n % 10) as u8)
    }
}

/// Decimal bytes of `i`, with a leading `-` when negative.
pub open spec fn int_bytes(i: int) -> Seq<u8> {
    if i < 0 {
        seq![45u8] + dec_digits((-i) as nat)
    } else {
        dec_digits(i as nat)
    }
}

/// The two-byte frame delimiter.
pub open spec fn crlf() -> Seq<u8> {
    seq![13u8, 10u8]
}

/// Concatenation of `chunks[k..]`.
pub open spec fn cat_from(chunks: Seq<Seq<u8>>, k: int) -> Seq<u8>
    decreases chunks.len() - k,
{
    if k < 0 || k >= chunks.len() {
        Seq::empty()
    } else {
        chunks[k] + cat_from(chunks, k + 1)
    }
}

/// The encodings of a sequence of frame models, elementwise.
pub open spec fn enc_chunks(els: Seq<FrameModel>) -> Seq<Seq<u8>>
    decreases els,
{
    Seq::new(
        els.len(),
        |i: int|
            if 0 <= i < els.len() {
                encode_model(els[i])
            } else {
                Seq::empty()
            },
    )
}

/// The byte encoding of a frame model: deterministic, and the exact inverse
/// of decoding for every well-formed value.
pub open spec fn encode_model(f: FrameModel) -> Seq<u8>
    decreases f,
{
    match f {
        FrameModel::Okay => seq![43u8, 79u8, 75u8, 13u8, 10u8],
        FrameModel::Integer(i) => seq![58u8] + int_bytes(i) + crlf(),
        FrameModel::Simple(s) => seq![43u8] + s + crlf(),
        FrameModel::Error(s) => seq![45u8] + s + crlf(),
        FrameModel::Batch(s) => seq![36u8] + int_bytes(s.len() as int) + crlf() + s + crlf(),
        FrameModel::Null => seq![36u8, 45u8, 49u8, 13u8, 10u8],
        FrameModel::Array(els) => seq![42u8] + int_bytes(els.len() as int) + crlf() + cat_from(
            enc_chunks(els),
            0,
        ),
    }
}

/// Appends the bytes of `s` to `out`.
fn push_str_bytes(out: &mut Vec<u8>, s: &str)
    ensures
        final(out)@ == old(out)@ + s.spec_bytes(),
{
    let sl = s.as_bytes();
    let n = sl.len();
    let mut k: usize = 0;
    while k < n
        invariant
            0 <= k <= n,
            n == sl@.len(),
            sl@ == s.spec_bytes(),
            out@.len() == old(out)@.len() + k,
            forall|t: int| 0 <= t < old(out)@.len() ==> out@[t] == old(out)@[t],
            forall|t: int| 0 <= t < k ==> out@[old(out)@.len() + t] == sl@[t],
        decreases n - k,
    {
        out.push(sl[k]);
        k += 1;
    }
    proof {
        assert(out@ =~= old(out)@ + s.spec_bytes());
    }
}

/// Appends the bytes of `b` to `out`.
fn push_all(out: &mut Vec<u8>, b: &Vec<u8>)
    ensures
        final(out)@ == old(out)@ + b@,
{
    let n = b.len();
    let mut k: usize = 0;
    while k < n
        invariant
            0 <= k <= n,
            n == b@.len(),
            out@.len() == old(out)@.len() + k,
            forall|t: int| 0 <= t < old(out)@.len() ==> out@[t] == old(out)@[t],
            forall|t: int| 0 <= t < k ==> out@[old(out)@.len() + t] == b@[t],
        decreases n - k,
    {
        out.push(b[k]);
        k += 1;
    }
    proof {
        assert(out@ =~= old(out)@ + b@);
    }
}

/// Appends the decimal digits of `n` to `out`.
fn push_u64_dec(out: &mut Vec<u8>, n: u64)
    ensures
        final(out)@ == old(out)@ + dec_digits(n as nat),
    decreases n,
{
    if n >= 10 {
        push_u64_dec(out, n / 10);
        let d: u8 = 48 + (n % 10) as u8;
        out.push(d);
        proof {
            assert(dec_digits((n / 10) as nat).push((48 + n as nat % 10) as u8) == dec_digits(
                n as nat,
            ));
            assert(out@ =~= old(out)@ + dec_digits(n as nat));
        }
    } else {
        let d: u8 = 48 + n as u8;
        out.push(d);
        proof {
            assert(out@ =~= old(out)@ + dec_digits(n as nat));
        }
    }
}

impl Frame {
    /// Encodes this frame to its exact wire bytes.
    pub fn as_bytes(&self) -> (r: Vec<u8>)
        ensures
            r@ == encode_model(self@),
        decreases self,
    {
        match self {
            Frame::Okay => {
                let mut out: Vec<u8> = Vec::new();
                out.push(43u8);
                out.push(79u8);
                out.push(75u8);
                out.push(13u8);
                out.push(10u8);
                proof {
                    assert(out@ =~= encode_model(self@));
                }
                out
            },
            Frame::Integer(i) => {
                let mut out: Vec<u8> = Vec::new();
                out.push(58u8);
                let v = *i;
                if v < 0 {
                    out.push(45u8);
                    let mag: u64 = (-(v as i128)) as u64;
                    push_u64_dec(&mut out, mag);
                    proof {
                        assert(mag as nat == (-(v as int)) as nat);
                        assert(out@ =~= seq![58u8] + int_bytes(v as int));
                    }
                } else {
                    push_u64_dec(&mut out, v as u64);
                    proof {
                        assert(out@ =~= seq![58u8] + int_bytes(v as int));
                    }
                }
                out.push(13u8);
                out.push(10u8);
                proof {
                    assert(out@ =~= encode_model(self@));
                }
                out
            },
            Frame::SimpleString(s) => {
                let mut out: Vec<u8> = Vec::new();
                out.push(43u8);
                push_str_bytes(&mut out, s.as_str());
                out.push(13u8);
                out.push(10u8);
                proof {
                    assert(out@ =~= encode_model(self@));
                }
                out
            },
            Frame::Error(s) => {
                let mut out: Vec<u8> = Vec::new();
                out.push(45u8);
                push_str_bytes(&mut out, s.as_str());
                out.push(13u8);
                out.push(10u8);
                proof {
                    assert(out@ =~= encode_model(self@));
                }
                out
            },
            Frame::BatchString(s) => {
                let mut out: Vec<u8> = Vec::new();
                out.push(36u8);
                let n = s.as_str().as_bytes().len();
                push_u64_dec(&mut out, n as u64);
                out.push(13u8);
                out.push(10u8);
                push_str_bytes(&mut out, s.as_str());
                out.push(13u8);
                out.push(10u8);
                proof {
                    assert(int_bytes(encode_utf8(s@).len() as int) == dec_digits(
                        encode_utf8(s@).len() as nat,
                    ));
                    assert(out@ =~= encode_model(self@));
                }
                out
            },
            Frame::Null => {
                let mut out: Vec<u8> = Vec::new();
                out.push(36u8);
                out.push(45u8);
                out.push(49u8);
                out.push(13u8);
                out.push(10u8);
                proof {
                    assert(out@ =~= encode_model(self@));
                }
                out
            },
            Frame::Array(v) => {
                let mut out: Vec<u8> = Vec::new();
                out.push(42u8);
                push_u64_dec(&mut out, v.len() as u64);
                out.push(13u8);
                out.push(10u8);
                let ghost els = models_of(v@);
                let ghost chunks = enc_chunks(els);
                proof {
                    assert(int_bytes(els.len() as int) == dec_digits(els.len() as nat));
                    assert(out@ + cat_from(chunks, 0) =~= encode_model(self@));
                }
                let n = v.len();
                let mut i: usize = 0;
                while i < n
                    invariant
                        0 <= i <= n,
                        n == v@.len(),
                        *self == Frame::Array(*v),
                        els == models_of(v@),
                        chunks == enc_chunks(els),
                        out@ + cat_from(chunks, i as int) == encode_model(self@),
                    decreases n - i,
                {
                    proof {
                        assert(*self == Frame::Array(*v));
                        assert(decreases_to!(*self => *v));
                        assert(decreases_to!(*v => v@[i as int]));
                    }
                    let b = v[i].as_bytes();
                    push_all(&mut out, &b);
                    proof {
                        assert(chunks[i as int] == encode_model(els[i as int]));
                        assert(els[i as int] == v@[i as int]@);
                        assert(cat_from(chunks, i as int) == chunks[i as int] + cat_from(
                            chunks,
                            i as int + 1,
                        ));
                        assert(out@ + cat_from(chunks, i as int + 1) =~= encode_model(self@));
                    }
                    i += 1;
                }
                proof {
                    assert(cat_from(chunks, n as int) == Seq::<u8>::empty());
                    assert(out@ =~= out@ + cat_from(chunks, n as int));
                }
                out
            },
        }
    }
}

/// Index of the first carriage-return byte in `s`, or -1 when there is none.
pub open spec fn find13(s: Seq<u8>) -> int
    decreases s.len(),
{
    if s.len() == 0 {
        -1
    } else if s[0] == 13 {
        0
    } else {
        let r = find13(s.subrange(1, s.len() as int));
        if r < 0 {
            -1
        } else {
            1 + r
        }
    }
}

/// Whether every byte of `s` is an ASCII decimal digit.
pub open spec fn all_digits(s: Seq<u8>) -> bool {
    forall|k: int| 0 <= k < s.len() ==> 48 <= #[trigger] s[k] <= 57
}

/// The value of `s` read as decimal digits, most significant first.
pub open spec fn dec_val(s: Seq<u8>) -> int
    decreases s.len(),
{
    if s.len() == 0 {
        0
    } else {
        dec_val(s.drop_last()) * 10 + (s.last() - 48)
    }
}

/// The unsigned decimal number denoted by `s`, if `s` is one.
pub open spec fn parse_num(s: Seq<u8>) -> Option<int> {
    if s.len() > 0 && all_digits(s) {
        Some(dec_val(s))
    } else {
        None
    }
}

/// The signed decimal number denoted by `s` (optional leading `-`), if any.
pub open spec fn parse_int(s: Seq<u8>) -> Option<int> {
    if s.len() > 0 && s[0] == 45 {
        match parse_num(s.subrange(1, s.len() as int)) {
            Some(v) => Some(-v),
            None => None,
        }
    } else {
        parse_num(s)
    }
}

/// Decodes the first frame of `s`: the frame's model and the number of bytes
/// consumed, or `None` when `s` is empty, the sigil is unrecognized, a
/// declared length does not match the available bytes, a `\r\n` delimiter is
/// missing, or text is not valid UTF-8.
pub open spec fn decode_one(s: Seq<u8>) -> Option<(FrameModel, int)>
    decreases s.len(), 0nat, 0nat,
{
    if s.len() == 0 {
        None
    } else {
        let sig = s[0];
        let rest = s.subrange(1, s.len() as int);
        let p = find13(rest);
        if p < 0 || p + 1 >= rest.len() || rest[p + 1] != 10 {
            None
        } else {
            let line = rest.subrange(0, p);
            let consumed = 3 + p;
            if sig == 43 {
                if valid_utf8(line) {
                    Some((FrameModel::Simple(line), consumed))
                } else {
                    None
                }
            } else if sig == 45 {
                if valid_utf8(line) {
                    Some((FrameModel::Error(line), consumed))
                } else {
                    None
                }
            } else if sig == 58 {
                match parse_int(line) {
                    Some(v) => if i64::MIN <= v <= i64::MAX {
                        Some((FrameModel::Integer(v), consumed))
                    } else {
                        None
                    },
                    None => None,
                }
            } else if sig == 36 {
                if line.len() == 2 && line[0] == 45 && line[1] == 49 {
                    Some((FrameModel::Null, consumed))
                } else {
                    match parse_num(line) {
                        Some(len) => if consumed + len + 2 <= s.len() && s[consumed + len] == 13
                            && s[consumed + len + 1] == 10 && valid_utf8(
                            s.subrange(consumed, consumed + len),
                        ) {
                            Some(
                                (
                                    FrameModel::Batch(s.subrange(consumed, consumed + len)),
                                    consumed + len + 2,
                                ),
                            )
                        } else {
                            None
                        },
                        None => None,
                    }
                }
            } else if sig == 42 {
                match parse_num(line) {
                    Some(n) => match decode_list(s.subrange(consumed, s.len() as int), n as nat) {
                        Some((els, k)) => Some((FrameModel::Array(els), consumed + k)),
                        None => None,
                    },
                    None => None,
                }
            } else {
                None
            }
        }
    }
}

/// Decodes `n` consecutive frames from the front of `s`: their models and
/// the total number of bytes consumed.
pub open spec fn decode_list(s: Seq<u8>, n: nat) -> Option<(Seq<FrameModel>, int)>
    decreases s.len(), 1nat, n,
{
    if n == 0 {
        Some((Seq::empty(), 0))
    } else {
        match decode_one(s) {
            Some((f, k)) => {
                let kc = if 0 <= k <= s.len() {
                    k
                } else {
                    0
                };
                match decode_list(s.subrange(kc, s.len() as int), (n - 1) as nat) {
                    Some((els, k2)) => Some((seq![f] + els, kc + k2)),
                    None => None,
                }
            },
            None => None,
        }
    }
}

/// A decimal value is never negative.
pub proof fn lemma_dec_val_nonneg(s: Seq<u8>)
    requires
        all_digits(s),
    ensures
        dec_val(s) >= 0,
    decreases s.len(),
{
    if s.len() > 0 {
        assert(all_digits(s.drop_last())) by {
            assert(forall|k: int|
                0 <= k < s.len() - 1 ==> s.drop_last()[k] == #[trigger] s[k]);
        }
        lemma_dec_val_nonneg(s.drop_last());
    }
}

/// Where the first carriage return of `s` stands: nowhere when the result is
/// -1, else at the returned index with none before it.
pub proof fn lemma_find13_props(s: Seq<u8>)
    ensures
        find13(s) == -1 ==> forall|k: int| 0 <= k < s.len() ==> s[k] != 13,
        find13(s) >= 0 ==> find13(s) < s.len() && s[find13(s)] == 13 && forall|k: int|
            0 <= k < find13(s) ==> s[k] != 13,
    decreases s.len(),
{
    if s.len() > 0 && s[0] != 13 {
        let t = s.subrange(1, s.len() as int);
        lemma_find13_props(t);
        assert(forall|k: int| 1 <= k < s.len() ==> #[trigger] s[k] == t[k - 1]);
    }
}

/// A successful decode consumes between 3 bytes and the whole input.
pub proof fn lemma_decode_one_bounds(s: Seq<u8>)
    ensures
        decode_one(s) is Some ==> 3 <= decode_one(s)->Some_0.1 <= s.len(),
    decreases s.len(), 0nat, 0nat,
{
    if s.len() != 0 {
        let rest = s.subrange(1, s.len() as int);
        let p = find13(rest);
        if !(p < 0 || p + 1 >= rest.len() || rest[p + 1] != 10) {
            let line = rest.subrange(0, p);
            let consumed = 3 + p;
            if s[0] == 36 && !(line.len() == 2 && line[0] == 45 && line[1] == 49) {
                if parse_num(line) is Some {
                    lemma_dec_val_nonneg(line);
                }
            }
            if s[0] == 42 {
                if parse_num(line) is Some {
                    let n = parse_num(line)->Some_0;
                    lemma_dec_val_nonneg(line);
                    lemma_decode_list_bounds(s.subrange(consumed, s.len() as int), n as nat);
                }
            }
        }
    }
}

/// A successful list decode consumes at most the whole input and yields
/// exactly `n` frames.
pub proof fn lemma_decode_list_bounds(s: Seq<u8>, n: nat)
    ensures
        decode_list(s, n) is Some ==> 0 <= decode_list(s, n)->Some_0.1 <= s.len()
            && decode_list(s, n)->Some_0.0.len() == n,
    decreases s.len(), 1nat, n,
{
    if n != 0 {
        lemma_decode_one_bounds(s);
        match decode_one(s) {
            Some((f, k)) => {
                let kc = if 0 <= k <= s.len() {
                    k
                } else {
                    0
                };
                lemma_decode_list_bounds(s.subrange(kc, s.len() as int), (n - 1) as nat);
            },
            None => {},
        }
    }
}

/// Reading one more digit multiplies the prefix value by ten.
pub proof fn lemma_dec_val_take_step(s: Seq<u8>, i: int)
    requires
        0 <= i < s.len(),
    ensures
        dec_val(s.subrange(0, i + 1)) == dec_val(s.subrange(0, i)) * 10 + (s[i] - 48),
{
    assert(s.subrange(0, i + 1).drop_last() =~= s.subrange(0, i));
    assert(s.subrange(0, i + 1).last() == s[i]);
}

/// A prefix of a digit string never exceeds the whole string's value.
pub proof fn lemma_dec_val_take_le(s: Seq<u8>, i: int)
    requires
        all_digits(s),
        0 <= i <= s.len(),
    ensures
        dec_val(s.subrange(0, i)) <= dec_val(s),
    decreases s.len() - i,
{
    if i == s.len() {
        assert(s.subrange(0, i) =~= s);
    } else {
        lemma_dec_val_take_step(s, i);
        assert(all_digits(s.subrange(0, i))) by {
            assert(forall|k: int|
                0 <= k < i ==> s.subrange(0, i)[k] == #[trigger] s[k]);
        }
        lemma_dec_val_nonneg(s.subrange(0, i));
        lemma_dec_val_take_le(s, i + 1);
    }
}

/// Whether `bytes[i]` holds a carriage return, scanning from `pos`.
fn find_crlf(bytes: &[u8], pos: usize) -> (r: Option<usize>)
    requires
        pos <= bytes@.len(),
    ensures
        ({
            let t = bytes@.subrange(pos as int, bytes@.len() as int);
            match r {
                Some(idx) => pos <= idx < bytes@.len() && idx - pos == find13(t),
                None => find13(t) == -1,
            }
        }),
{
    let n = bytes.len();
    let ghost t = bytes@.subrange(pos as int, bytes@.len() as int);
    let mut i = pos;
    while i < n
        invariant
            pos <= i <= n,
            n == bytes@.len(),
            t == bytes@.subrange(pos as int, bytes@.len() as int),
            forall|k: int| pos <= k < i ==> bytes@[k] != 13,
        decreases n - i,
    {
        if bytes[i] == 13 {
            proof {
                lemma_find13_props(t);
                assert(t[i - pos] == 13);
                assert(forall|k: int| 0 <= k < i - pos ==> t[k] == #[trigger] bytes@[pos + k]);
                if find13(t) == -1 {
                    assert(t[i - pos] != 13);
                }
                if 0 <= find13(t) < i - pos {
                    assert(bytes@[pos + find13(t)] != 13);
                }
            }
            return Some(i);
        }
        i += 1;
    }
    proof {
        lemma_find13_props(t);
        if find13(t) >= 0 {
            assert(bytes@[pos + find13(t)] != 13);
            assert(t[find13(t)] == bytes@[pos + find13(t)]);
        }
    }
    None
}

/// Parses `bytes[lo..hi]` as an unsigned decimal number; `None` when the
/// range is empty, holds a non-digit, or its value does not fit in a `u64`.
fn parse_u64_digits(bytes: &[u8], lo: usize, hi: usize) -> (r: Option<u64>)
    requires
        lo <= hi <= bytes@.len(),
    ensures
        ({
            let t = bytes@.subrange(lo as int, hi as int);
            match r {
                Some(v) => parse_num(t) == Some(v as int),
                None => parse_num(t) is None || parse_num(t)->Some_0 > u64::MAX,
            }
        }),
{
    let ghost t = bytes@.subrange(lo as int, hi as int);
    if lo == hi {
        return None;
    }
    let mut i = lo;
    while i < hi
        invariant
            lo <= i <= hi <= bytes@.len(),
            t == bytes@.subrange(lo as int, hi as int),
            forall|k: int| 0 <= k < i - lo ==> 48 <= #[trigger] t[k] <= 57,
        decreases hi - i,
    {
        let b = bytes[i];
        if b < 48 || b > 57 {
            proof {
                assert(t[i - lo] == bytes@[i as int]);
                assert(!all_digits(t));
            }
            return None;
        }
        proof {
            assert(t[i - lo] == bytes@[i as int]);
        }
        i += 1;
    }
    assert(all_digits(t));
    let mut acc: u64 = 0;
    let mut j = lo;
    while j < hi
        invariant
            lo <= j <= hi <= bytes@.len(),
            t == bytes@.subrange(lo as int, hi as int),
            all_digits(t),
            acc as int == dec_val(t.subrange(0, j - lo)),
        decreases hi - j,
    {
        let b = bytes[j];
        proof {
            assert(t[j - lo] == bytes@[j as int]);
        }
        let d: u64 = (b - 48) as u64;
        if acc > (u64::MAX - d) / 10 {
            proof {
                assert(acc * 10 + d > u64::MAX) by (nonlinear_arith)
                    requires acc > (u64::MAX - d) / 10, 0 <= d <= 9, u64::MAX == 0xffff_ffff_ffff_ffff;
                lemma_dec_val_take_step(t, j - lo);
                lemma_dec_val_take_le(t, j - lo + 1);
                assert(dec_val(t) > u64::MAX);
            }
            return None;
        }
        proof {
            assert(acc * 10 + d <= u64::MAX) by (nonlinear_arith)
                requires acc <= (u64::MAX - d) / 10, 0 <= d <= 9, u64::MAX == 0xffff_ffff_ffff_ffff;
            lemma_dec_val_take_step(t, j - lo);
        }
        acc = acc * 10 + d;
        j += 1;
    }
    proof {
        assert(t.subrange(0, (hi - lo) as int) =~= t);
    }
    Some(acc)
}

/// A decode failure: the input held no well-formed frame.
#[derive(Debug, PartialEq, Eq, Structural)]
pub enum DecodeError {
    Malformed,
}

/// Relies on String::from_utf8: returns the string over exactly the given
/// bytes when they are valid UTF-8, and nothing otherwise.
#[verifier::external_body]
fn utf8_to_string(v: Vec<u8>) -> (r: Option<String>)
    ensures
        r is Some <==> valid_utf8(v@),
        r is Some ==> encode_utf8(r->Some_0@) == v@,
{
    match String::from_utf8(v) {
        Ok(s) => Some(s),
        Err(_) => None,
    }
}

/// Parses the first frame of `bytes[pos..]`, returning the frame and the
/// index just past it.
#[verifier::rlimit(100)]
fn parse_frame(bytes: &[u8], pos: usize) -> (r: Result<(Frame, usize), DecodeError>)
    requires
        pos <= bytes@.len(),
    ensures
        ({
            let t = bytes@.subrange(pos as int, bytes@.len() as int);
            match r {
                Ok((f, newpos)) => pos < newpos <= bytes@.len() && decode_one(t) == Some(
                    (f@, newpos - pos),
                ),
                Err(_) => decode_one(t) is None,
            }
        }),
    decreases bytes@.len() - pos,
{
    let n = bytes.len();
    let ghost t = bytes@.subrange(pos as int, bytes@.len() as int);
    if pos == n {
        return Err(DecodeError::Malformed);
    }
    let sig = bytes[pos];
    proof {
        assert(t[0] == sig);
        assert(t.subrange(1, t.len() as int) =~= bytes@.subrange(pos + 1, n as int));
    }
    let p_abs = match find_crlf(bytes, pos + 1) {
        Some(q) => q,
        None => {
            return Err(DecodeError::Malformed);
        },
    };
    let ghost rest = t.subrange(1, t.len() as int);
    let ghost p = find13(rest);
    proof {
        assert(p == p_abs - (pos + 1));
    }
    if p_abs + 1 >= n || bytes[p_abs + 1] != 10 {
        proof {
            assert(p + 1 >= rest.len() || rest[p + 1] != 10);
        }
        return Err(DecodeError::Malformed);
    }
    proof {
        assert(rest[p + 1] == bytes@[p_abs + 1]);
    }
    let ghost line = rest.subrange(0, p);
    let ghost consumed = 3 + p;
    proof {
        assert(line =~= bytes@.subrange(pos + 1, p_abs as int));
    }
    let consumed_abs = p_abs + 2;
    if sig == 43 || sig == 45 {
        let content = vstd::slice::slice_to_vec(
            vstd::slice::slice_subrange(bytes, pos + 1, p_abs),
        );
        match utf8_to_string(content) {
            Some(s) => {
                if sig == 43 {
                    proof {
                        assert(encode_utf8(s@) == line);
                    }
                    Ok((Frame::SimpleString(s), consumed_abs))
                } else {
                    Ok((Frame::Error(s), consumed_abs))
                }
            },
            None => Err(DecodeError::Malformed),
        }
    } else if sig == 58 {
        if pos + 1 == p_abs {
            return Err(DecodeError::Malformed);
        }
        let neg = bytes[pos + 1] == 45;
        let dlo = if neg {
            pos + 2
        } else {
            pos + 1
        };
        proof {
            assert(line[0] == bytes@[pos + 1]);
            if neg {
                assert(line.subrange(1, line.len() as int) =~= bytes@.subrange(
                    dlo as int,
                    p_abs as int,
                ));
            } else {
                assert(line =~= bytes@.subrange(dlo as int, p_abs as int));
            }
        }
        if dlo == p_abs {
            return Err(DecodeError::Malformed);
        }
        match parse_u64_digits(bytes, dlo, p_abs) {
            None => Err(DecodeError::Malformed),
            Some(v) => {
                if neg {
                    if v > 9223372036854775808u64 {
                        return Err(DecodeError::Malformed);
                    }
                    let x: i64 = if v == 9223372036854775808u64 {
                        i64::MIN
                    } else {
                        -(v as i64)
                    };
                    proof {
                        assert(parse_int(line) == Some(-(v as int)));
                        assert(x as int == -(v as int));
                    }
                    Ok((Frame::Integer(x), consumed_abs))
                } else {
                    if v > 9223372036854775807u64 {
                        return Err(DecodeError::Malformed);
                    }
                    proof {
                        assert(parse_int(line) == Some(v as int));
                    }
                    Ok((Frame::Integer(v as i64), consumed_abs))
                }
            },
        }
    } else if sig == 36 {
        if p_abs == pos + 3 && bytes[pos + 1] == 45 && bytes[pos + 2] == 49 {
            proof {
                assert(line.len() == 2 && line[0] == 45 && line[1] == 49);
            }
            return Ok((Frame::Null, consumed_abs));
        }
        proof {
            if line.len() == 2 && line[0] == 45 && line[1] == 49 {
                assert(bytes@[pos + 1] == 45 && bytes@[pos + 2] == 49 && p_abs == pos + 3);
            }
        }
        match parse_u64_digits(bytes, pos + 1, p_abs) {
            None => Err(DecodeError::Malformed),
            Some(len64) => {
                let remaining = n - consumed_abs;
                if remaining < 2 || len64 > (remaining - 2) as u64 {
                    proof {
                        assert(consumed + (len64 as int) + 2 > t.len());
                    }
                    return Err(DecodeError::Malformed);
                }
                let l = len64 as usize;
                let end = consumed_abs + l;
                proof {
                    assert(t[consumed + l] == bytes@[end as int]);
                    assert(t[consumed + l + 1] == bytes@[end + 1]);
                }
                if bytes[end] != 13 || bytes[end + 1] != 10 {
                    return Err(DecodeError::Malformed);
                }
                let content = vstd::slice::slice_to_vec(
                    vstd::slice::slice_subrange(bytes, consumed_abs, end),
                );
                proof {
                    assert(content@ =~= t.subrange(consumed, consumed + l));
                }
                match utf8_to_string(content) {
                    Some(s) => Ok((Frame::BatchString(s), end + 2)),
                    None => Err(DecodeError::Malformed),
                }
            },
        }
    } else if sig == 42 {
        let count = match parse_u64_digits(bytes, pos + 1, p_abs) {
            Some(c) => c,
            None => {
                proof {
                    if parse_num(line) is Some {
                        let cnt = parse_num(line)->Some_0;
                        assert(cnt > u64::MAX);
                        lemma_decode_list_too_long(
                            t.subrange(consumed, t.len() as int),
                            cnt as nat,
                        );
                    }
                }
                return Err(DecodeError::Malformed);
            },
        };
        let ghost s0 = bytes@.subrange(consumed_abs as int, n as int);
        proof {
            assert(s0 =~= t.subrange(consumed, t.len() as int));
        }
        let mut els: Vec<Frame> = Vec::new();
        let mut cur = consumed_abs;
        let mut i: u64 = 0;
        proof {
            assert(bytes@.subrange(cur as int, n as int) =~= s0);
            assert(models_of(els@) + decode_list(s0, count as nat)->Some_0.0 =~= decode_list(
                s0,
                count as nat,
            )->Some_0.0);
        }
        while i < count
            invariant
                pos < consumed_abs <= cur <= n,
                i <= count,
                n == bytes@.len(),
                s0 == bytes@.subrange(consumed_abs as int, n as int),
                ({
                    let dl = decode_list(s0, count as nat);
                    decode_one(bytes@.subrange(pos as int, n as int)) == (match dl {
                        Some((ms, k)) => Some(
                            (FrameModel::Array(ms), (consumed_abs - pos) + k),
                        ),
                        None => None::<(FrameModel, int)>,
                    })
                }),
                ({
                    let suffix = bytes@.subrange(cur as int, n as int);
                    match decode_list(suffix, (count - i) as nat) {
                        Some((ms, k2)) => decode_list(s0, count as nat) == Some(
                            (models_of(els@) + ms, (cur - consumed_abs) + k2),
                        ),
                        None => decode_list(s0, count as nat) is None,
                    }
                }),
            decreases count - i,
        {
            let ghost suffix = bytes@.subrange(cur as int, n as int);
            match parse_frame(bytes, cur) {
                Err(e) => {
                    proof {
                        assert(decode_list(suffix, (count - i) as nat) is None);
                    }
                    return Err(DecodeError::Malformed);
                },
                Ok((f, newpos)) => {
                    proof {
                        let k = newpos - cur;
                        assert(decode_one(suffix) == Some((f@, k)));
                        assert(suffix.subrange(k, suffix.len() as int) =~= bytes@.subrange(
                            newpos as int,
                            n as int,
                        ));
                        let rest2 = decode_list(
                            bytes@.subrange(newpos as int, n as int),
                            (count - i - 1) as nat,
                        );
                        match rest2 {
                            Some((ms2, k2)) => {
                                assert(decode_list(suffix, (count - i) as nat) == Some(
                                    (seq![f@] + ms2, k + k2),
                                ));
                                assert(models_of(els@.push(f)) =~= models_of(els@) + seq![f@]);
                                assert((models_of(els@) + seq![f@]) + ms2 =~= models_of(els@) + (
                                seq![f@] + ms2));
                            },
                            None => {
                                assert(decode_list(suffix, (count - i) as nat) is None);
                            },
                        }
                    }
                    els.push(f);
                    cur = newpos;
                    i = i + 1;
                },
            }
        }
        proof {
            let suffix = bytes@.subrange(cur as int, n as int);
            assert(decode_list(suffix, 0nat) == Some((Seq::<FrameModel>::empty(), 0int)));
            assert(models_of(els@) + Seq::<FrameModel>::empty() =~= models_of(els@));
            assert(decode_list(s0, count as nat) == Some(
                (models_of(els@), (cur - consumed_abs) as int),
            ));
            assert(parse_num(line) == Some(count as int));
        }
        Ok((Frame::Array(els), cur))
    } else {
        Err(DecodeError::Malformed)
    }
}

/// A list longer than the bytes that remain cannot decode: every frame
/// consumes at least one byte.
pub proof fn lemma_decode_list_too_long(s: Seq<u8>, n: nat)
    requires
        n > s.len(),
    ensures
        decode_list(s, n) is None,
    decreases n,
{
    lemma_decode_one_bounds(s);
    match decode_one(s) {
        Some((f, k)) => {
            let kc = if 0 <= k <= s.len() {
                k
            } else {
                0
            };
            lemma_decode_list_too_long(s.subrange(kc, s.len() as int), (n - 1) as nat);
        },
        None => {},
    }
}

impl Frame {
    /// Decodes the first frame of `bytes`; bytes past that frame are
    /// ignored.  Fails exactly when no well-formed frame starts the input.
    pub fn from_bytes(bytes: &[u8]) -> (r: Result<Frame, DecodeError>)
        ensures
            match r {
                Ok(f) => decode_one(bytes@) is Some && f@ == decode_one(bytes@)->Some_0.0,
                Err(_) => decode_one(bytes@) is None,
            },
    {
        proof {
            assert(bytes@.subrange(0, bytes@.len() as int) =~= bytes@);
        }
        match parse_frame(bytes, 0) {
            Ok((f, _)) => Ok(f),
            Err(e) => Err(e),
        }
    }
}

/// Well-formed frame model: integers fit the wire's signed 64-bit range,
/// simple and error text holds no carriage return and is valid UTF-8, and
/// batch text is valid UTF-8.
pub open spec fn frame_ok(f: FrameModel) -> bool
    decreases f,
{
    match f {
        FrameModel::Okay => true,
        FrameModel::Integer(i) => i64::MIN <= i <= i64::MAX,
        FrameModel::Simple(s) => !s.contains(13) && valid_utf8(s),
        FrameModel::Error(s) => !s.contains(13) && valid_utf8(s),
        FrameModel::Batch(s) => valid_utf8(s),
        FrameModel::Null => true,
        FrameModel::Array(els) => forall|i: int|
            0 <= i < els.len() ==> frame_ok(#[trigger] els[i]),
    }
}

/// What a decoder reproduces for `f`: the dedicated status value collapses
/// into the simple string `OK`; everything else is unchanged.
pub open spec fn canon(f: FrameModel) -> FrameModel
    decreases f,
{
    match f {
        FrameModel::Okay => FrameModel::Simple(seq![79u8, 75u8]),
        FrameModel::Array(els) => FrameModel::Array(
            Seq::new(
                els.len(),
                |i: int|
                    if 0 <= i < els.len() {
                        canon(els[i])
                    } else {
                        FrameModel::Null
                    },
            ),
        ),
        _ => f,
    }
}

/// Canonicalized tail `els[k..]`, elementwise.
pub open spec fn canon_list(els: Seq<FrameModel>, k: int) -> Seq<FrameModel> {
    Seq::new(
        if 0 <= k <= els.len() {
            (els.len() - k) as nat
        } else {
            0
        },
        |j: int|
            if 0 <= j && 0 <= k + j < els.len() {
                canon(els[k + j])
            } else {
                FrameModel::Null
            },
    )
}

/// Whether `f` holds no dedicated status value anywhere; such frames
/// round-trip to themselves exactly.
pub open spec fn okay_free(f: FrameModel) -> bool
    decreases f,
{
    match f {
        FrameModel::Okay => false,
        FrameModel::Array(els) => forall|i: int|
            0 <= i < els.len() ==> okay_free(#[trigger] els[i]),
        _ => true,
    }
}

/// An ASCII-only byte string is valid UTF-8.
pub proof fn lemma_ascii_valid_utf8(s: Seq<u8>)
    requires
        forall|k: int| 0 <= k < s.len() ==> #[trigger] s[k] < 128,
    ensures
        valid_utf8(s),
{
    assert(s.subrange(0, 0) =~= Seq::<u8>::empty());
    assert(vstd::utf8::partial_valid_utf8(s, 0));
    assert forall|i: int|
        0 <= 0 <= i < s.len() <= s.len() implies vstd::utf8::is_leading_byte_width_1(
        #[trigger] s[i],
    ) by {}
    vstd::utf8::partial_valid_utf8_extend_ascii_block(s, 0, s.len() as int);
    assert(s.subrange(0, s.len() as int) =~= s);
}

/// Decimal digit strings are nonempty, all digits, and read back as `n`.
pub proof fn lemma_dec_digits_props(n: nat)
    ensures
        dec_digits(n).len() >= 1,
        all_digits(dec_digits(n)),
        dec_val(dec_digits(n)) == n,
    decreases n,
{
    if n < 10 {
        let s = dec_digits(n);
        assert(s =~= seq![(48 + n) as u8]);
        assert(s.len() == 1);
        assert(s.drop_last() =~= Seq::<u8>::empty());
        assert(dec_val(s.drop_last()) == 0);
        assert(s.last() == (48 + n) as u8);
        assert((48 + n) as u8 as int == 48 + n);
        assert(dec_val(s) == dec_val(s.drop_last()) * 10 + (s.last() - 48));
    } else {
        lemma_dec_digits_props(n / 10);
        let prefix = dec_digits(n / 10);
        let d = (48 + n % 10) as u8;
        let s = prefix.push(d);
        assert(s.drop_last() =~= prefix);
        assert(s.last() == d);
        assert(all_digits(s)) by {
            assert(forall|k: int| 0 <= k < prefix.len() ==> s[k] == #[trigger] prefix[k]);
        }
        assert(d as int == 48 + n % 10);
        assert(dec_val(s) == dec_val(prefix) * 10 + (d - 48));
        assert((n / 10) * 10 + n % 10 == n);
    }
}

/// Where a CR is known at `q` with none before it, the first CR is at `q`.
pub proof fn lemma_find13_at(s: Seq<u8>, q: int)
    requires
        0 <= q < s.len(),
        s[q] == 13,
        forall|k: int| 0 <= k < q ==> s[k] != 13,
    ensures
        find13(s) == q,
{
    lemma_find13_props(s);
    if find13(s) == -1 {
        assert(s[q] != 13);
    }
    if 0 <= find13(s) < q {
        assert(s[find13(s)] != 13);
    }
    if find13(s) > q {
        assert(s[q] != 13);
    }
}

/// Decoding an encoding of `f`, whatever follows it, yields exactly the
/// canonicalized `f` and consumes exactly the encoding.
#[verifier::rlimit(100)]
pub proof fn lemma_round_trip(f: FrameModel, tail: Seq<u8>)
    requires
        frame_ok(f),
    ensures
        decode_one(encode_model(f) + tail) == Some(
            (canon(f), encode_model(f).len() as int),
        ),
    decreases f, 1nat, 0nat,
{
    let e = encode_model(f);
    let w = e + tail;
    let rest = w.subrange(1, w.len() as int);
    match f {
        FrameModel::Okay => {
            assert(rest =~= seq![79u8, 75u8, 13u8, 10u8] + tail);
            lemma_find13_at(rest, 2);
            assert(rest.subrange(0, 2) =~= seq![79u8, 75u8]);
            lemma_ascii_valid_utf8(seq![79u8, 75u8]);
        },
        FrameModel::Null => {
            assert(rest =~= seq![45u8, 49u8, 13u8, 10u8] + tail);
            lemma_find13_at(rest, 2);
            assert(rest.subrange(0, 2) =~= seq![45u8, 49u8]);
        },
        FrameModel::Simple(s) => {
            assert(rest =~= s + crlf() + tail);
            assert forall|k: int| 0 <= k < s.len() implies rest[k] != 13 by {
                if s[k] == 13 {
                    assert(s.contains(13));
                }
            }
            lemma_find13_at(rest, s.len() as int);
            assert(rest.subrange(0, s.len() as int) =~= s);
        },
        FrameModel::Error(s) => {
            assert(rest =~= s + crlf() + tail);
            assert forall|k: int| 0 <= k < s.len() implies rest[k] != 13 by {
                if s[k] == 13 {
                    assert(s.contains(13));
                }
            }
            lemma_find13_at(rest, s.len() as int);
            assert(rest.subrange(0, s.len() as int) =~= s);
        },
        FrameModel::Integer(i) => {
            let ib = int_bytes(i);
            assert(rest =~= ib + crlf() + tail);
            if i < 0 {
                lemma_dec_digits_props((-i) as nat);
                assert(forall|k: int|
                    0 <= k < ib.len() ==> #[trigger] ib[k] == 45 || 48 <= ib[k] <= 57);
            } else {
                lemma_dec_digits_props(i as nat);
            }
            assert forall|k: int| 0 <= k < ib.len() implies rest[k] != 13 by {}
            lemma_find13_at(rest, ib.len() as int);
            let line = rest.subrange(0, ib.len() as int);
            assert(line =~= ib);
            if i < 0 {
                assert(line[0] == 45);
                assert(line.subrange(1, line.len() as int) =~= dec_digits((-i) as nat));
                assert(parse_int(line) == Some(i));
            } else {
                assert(line[0] != 45);
                assert(parse_int(line) == Some(i));
            }
        },
        FrameModel::Batch(s) => {
            let dd = dec_digits(s.len() as nat);
            lemma_dec_digits_props(s.len() as nat);
            assert(int_bytes(s.len() as int) == dd);
            assert(rest =~= dd + crlf() + s + crlf() + tail);
            assert forall|k: int| 0 <= k < dd.len() implies rest[k] != 13 by {}
            lemma_find13_at(rest, dd.len() as int);
            let line = rest.subrange(0, dd.len() as int);
            assert(line =~= dd);
            assert(line[0] != 45);
            assert(parse_num(line) == Some(s.len() as int));
            let consumed = 3 + dd.len() as int;
            assert(w[consumed + s.len()] == 13);
            assert(w[consumed + s.len() + 1] == 10);
            assert(w.subrange(consumed, consumed + s.len()) =~= s);
            assert(e.len() == consumed + s.len() + 2);
        },
        FrameModel::Array(els) => {
            let dd = dec_digits(els.len() as nat);
            lemma_dec_digits_props(els.len() as nat);
            assert(int_bytes(els.len() as int) == dd);
            let body = cat_from(enc_chunks(els), 0);
            assert(rest =~= dd + crlf() + body + tail);
            assert forall|k: int| 0 <= k < dd.len() implies rest[k] != 13 by {}
            lemma_find13_at(rest, dd.len() as int);
            let line = rest.subrange(0, dd.len() as int);
            assert(line =~= dd);
            assert(parse_num(line) == Some(els.len() as int));
            let consumed = 3 + dd.len() as int;
            assert(w.subrange(consumed, w.len() as int) =~= body + tail);
            lemma_round_trip_from(els, 0, tail);
            assert(canon_list(els, 0) =~= canon(f)->Array_0);
            assert(e.len() == consumed + body.len());
        },
    }
}

/// Decoding the concatenated encodings of `els[k..]`, whatever follows,
/// yields their canonicalized models and consumes exactly those encodings.
pub proof fn lemma_round_trip_from(els: Seq<FrameModel>, k: int, tail: Seq<u8>)
    requires
        0 <= k <= els.len(),
        forall|i: int| 0 <= i < els.len() ==> frame_ok(#[trigger] els[i]),
    ensures
        decode_list(cat_from(enc_chunks(els), k) + tail, (els.len() - k) as nat) == Some(
            (canon_list(els, k), cat_from(enc_chunks(els), k).len() as int),
        ),
    decreases els, 0nat, els.len() - k,
{
    let chunks = enc_chunks(els);
    if k == els.len() {
        assert(cat_from(chunks, k) =~= Seq::<u8>::empty());
        assert(cat_from(chunks, k) + tail =~= tail);
        assert(canon_list(els, k) =~= Seq::<FrameModel>::empty());
    } else {
        let e0 = encode_model(els[k]);
        assert(chunks[k] == e0);
        let rest_cat = cat_from(chunks, k + 1);
        let w = cat_from(chunks, k) + tail;
        assert(w =~= e0 + (rest_cat + tail));
        lemma_round_trip(els[k], rest_cat + tail);
        lemma_round_trip_from(els, k + 1, tail);
        assert(w.subrange(e0.len() as int, w.len() as int) =~= rest_cat + tail);
        assert(seq![canon(els[k])] + canon_list(els, k + 1) =~= canon_list(els, k));
    }
}

/// Law: decoding an encoded well-formed frame reproduces it, with the
/// dedicated status value collapsing to the simple string `OK` and all
/// other values unchanged; exactly the encoding's bytes are consumed.
pub proof fn lemma_codec_round_trip(f: FrameModel)
    requires
        frame_ok(f),
    ensures
        decode_one(encode_model(f)) == Some((canon(f), encode_model(f).len() as int)),
        okay_free(f) ==> decode_one(encode_model(f)) == Some(
            (f, encode_model(f).len() as int),
        ),
{
    assert(encode_model(f) + Seq::<u8>::empty() =~= encode_model(f));
    lemma_round_trip(f, Seq::empty());
    if okay_free(f) {
        lemma_canon_identity(f);
    }
}

/// A frame without the dedicated status value canonicalizes to itself.
pub proof fn lemma_canon_identity(f: FrameModel)
    requires
        okay_free(f),
    ensures
        canon(f) == f,
    decreases f,
{
    match f {
        FrameModel::Array(els) => {
            assert forall|i: int| 0 <= i < els.len() implies canon(#[trigger] els[i])
                == els[i] by {
                lemma_canon_identity(els[i]);
            }
            assert(canon(f)->Array_0 =~= els);
        },
        _ => {},
    }
}

/// Law: any frame value whose simple and error text holds no carriage
/// return decodes from its own encoding, the dedicated status value
/// collapsing to the simple string `OK` and everything else unchanged.
pub proof fn lemma_frame_round_trip(f: &Frame)
    requires
        texts_cr_free(f@),
    ensures
        decode_one(encode_model(f@)) == Some((canon(f@), encode_model(f@).len() as int)),
{
    lemma_frame_model_ok(*f);
    lemma_codec_round_trip(f@);
}

/// Every frame whose simple and error strings hold no carriage return has a
/// well-formed model: the remaining conditions (UTF-8 text, 64-bit
/// integers) hold of every `Frame` by construction.
pub open spec fn texts_cr_free(f: FrameModel) -> bool
    decreases f,
{
    match f {
        FrameModel::Simple(s) => !s.contains(13),
        FrameModel::Error(s) => !s.contains(13),
        FrameModel::Array(els) => forall|i: int|
            0 <= i < els.len() ==> texts_cr_free(#[trigger] els[i]),
        _ => true,
    }
}

/// A `Frame`'s model is well-formed as soon as its simple and error text
/// holds no carriage return.
pub proof fn lemma_frame_model_ok(f: Frame)
    requires
        texts_cr_free(f@),
    ensures
        frame_ok(f@),
    decreases f,
{
    broadcast use vstd::utf8::encode_utf8_valid_utf8;

    match f {
        Frame::Array(v) => {
            let ghost m = f@;
            assert(m == FrameModel::Array(models_of(v@)));
            match m {
                FrameModel::Array(els) => {
                    assert forall|i: int|
                        0 <= i < els.len() implies frame_ok(#[trigger] els[i]) by {
                        assert(els[i] == v@[i]@);
                        assert(texts_cr_free(els[i]));
                        lemma_frame_model_ok(v@[i]);
                    }
                    assert(frame_ok(m));
                },
                _ => {},
            }
        },
        _ => {},
    }
}


/// The character for decimal digit `d`.
pub open spec fn digit_char(d: int) -> char {
    if d == 0 {
        '0'
    } else if d == 1 {
        '1'
    } else if d == 2 {
        '2'
    } else if d == 3 {
        '3'
    } else if d == 4 {
        '4'
    } else if d == 5 {
        '5'
    } else if d == 6 {
        '6'
    } else if d == 7 {
        '7'
    } else if d == 8 {
        '8'
    } else {
        '9'
    }
}

/// Decimal digit characters of `n`, most significant first.
pub open spec fn dec_chars(n: nat) -> Seq<char>
    decreases n,
{
    if n < 10 {
        seq![digit_char(n as int)]
    } else {
        dec_chars(n / 10).push(digit_char((n % 10) as int))
    }
}

/// Decimal characters of `i`, with a leading `-` when negative.
pub open spec fn int_chars(i: int) -> Seq<char> {
    if i < 0 {
        seq!['-'] + dec_chars((-i) as nat)
    } else {
        dec_chars(i as nat)
    }
}

/// `texts[k..]` joined with one space after each element.
pub open spec fn join_from(texts: Seq<Seq<char>>, k: int) -> Seq<char>
    decreases texts.len() - k,
{
    if k < 0 || k >= texts.len() {
        Seq::empty()
    } else {
        texts[k] + seq![' '] + join_from(texts, k + 1)
    }
}

/// Length of the maximal run of spaces at the end of `s`.
pub open spec fn trailing_spaces(s: Seq<char>) -> int
    decreases s.len(),
{
    if s.len() == 0 {
        0
    } else if s.last() == ' ' {
        1 + trailing_spaces(s.drop_last())
    } else {
        0
    }
}

/// `s` with its trailing run of spaces removed.
pub open spec fn strip_trailing_spaces(s: Seq<char>) -> Seq<char> {
    s.subrange(0, s.len() - trailing_spaces(s))
}

/// Texts of a sequence of frame models, elementwise.
pub open spec fn texts_of(els: Seq<FrameModel>) -> Seq<Seq<char>>
    decreases els,
{
    Seq::new(
        els.len(),
        |i: int|
            if 0 <= i < els.len() {
                text_of(els[i])
            } else {
                Seq::empty()
            },
    )
}

/// The textual rendering of a frame: scalars render as their text, null as
/// empty text, and an array as its elements' texts joined by single spaces
/// with the trailing run of spaces removed.
pub open spec fn text_of(f: FrameModel) -> Seq<char>
    decreases f,
{
    match f {
        FrameModel::Okay => seq!['o', 'k'],
        FrameModel::Integer(i) => int_chars(i),
        FrameModel::Simple(s) => decode_utf8(s),
        FrameModel::Batch(s) => decode_utf8(s),
        FrameModel::Error(s) => decode_utf8(s),
        FrameModel::Array(els) => strip_trailing_spaces(join_from(texts_of(els), 0)),
        FrameModel::Null => Seq::empty(),
    }
}

/// The trailing-space run is a well-formed suffix of spaces with a
/// non-space (if anything) just before it.
pub proof fn lemma_trailing_spaces_props(s: Seq<char>)
    ensures
        0 <= trailing_spaces(s) <= s.len(),
        forall|k: int| s.len() - trailing_spaces(s) <= k < s.len() ==> s[k] == ' ',
        trailing_spaces(s) < s.len() ==> s[s.len() - trailing_spaces(s) - 1] != ' ',
    decreases s.len(),
{
    if s.len() > 0 && s.last() == ' ' {
        let t = s.drop_last();
        lemma_trailing_spaces_props(t);
        assert forall|k: int|
            s.len() - trailing_spaces(s) <= k < s.len() implies s[k] == ' ' by {
            if k < s.len() - 1 {
                assert(s[k] == t[k]);
            }
        }
        if trailing_spaces(s) < s.len() {
            assert(s[s.len() - trailing_spaces(s) - 1] == t[t.len() - trailing_spaces(t) - 1]);
        }
    }
}

/// Relies on String's FromIterator over chars: collects exactly the given
/// characters, in order.
#[verifier::external_body]
fn chars_to_string(v: Vec<char>) -> (r: String)
    ensures
        r@ == v@,
{
    v.into_iter().collect()
}

/// Appends the decimal digit characters of `n` to `out`.
fn push_dec_chars(out: &mut Vec<char>, n: u64)
    ensures
        final(out)@ == old(out)@ + dec_chars(n as nat),
    decreases n,
{
    if n >= 10 {
        push_dec_chars(out, n / 10);
    }
    let d = n % 10;
    let c: char = if d == 0 {
        '0'
    } else if d == 1 {
        '1'
    } else if d == 2 {
        '2'
    } else if d == 3 {
        '3'
    } else if d == 4 {
        '4'
    } else if d == 5 {
        '5'
    } else if d == 6 {
        '6'
    } else if d == 7 {
        '7'
    } else if d == 8 {
        '8'
    } else {
        '9'
    };
    out.push(c);
    proof {
        assert(c == digit_char((n % 10) as int));
        if n < 10 {
            assert(out@ =~= old(out)@ + dec_chars(n as nat));
        } else {
            assert(dec_chars(n as nat) == dec_chars((n / 10) as nat).push(
                digit_char((n as nat % 10) as int),
            ));
            assert(out@ =~= old(out)@ + dec_chars(n as nat));
        }
    }
}

/// Appends the characters of `s` to `out`.
fn push_str_chars(out: &mut Vec<char>, s: &str)
    ensures
        final(out)@ == old(out)@ + s@,
{
    let n = s.unicode_len();
    let mut k: usize = 0;
    while k < n
        invariant
            0 <= k <= n,
            n == s@.len(),
            out@.len() == old(out)@.len() + k,
            forall|t: int| 0 <= t < old(out)@.len() ==> out@[t] == old(out)@[t],
            forall|t: int| 0 <= t < k ==> out@[old(out)@.len() + t] == s@[t],
        decreases n - k,
    {
        let c = s.get_char(k);
        out.push(c);
        k += 1;
    }
    proof {
        assert(out@ =~= old(out)@ + s@);
    }
}

impl Frame {
    /// The textual rendering of this frame, as `text_of` describes.
    #[verifier::loop_isolation(false)]
    pub fn to_string(&self) -> (r: String)
        ensures
            r@ == text_of(self@),
        decreases self,
    {
        match self {
            Frame::Okay => {
                let mut v: Vec<char> = Vec::new();
                v.push('o');
                v.push('k');
                proof {
                    assert(v@ =~= text_of(self@));
                }
                chars_to_string(v)
            },
            Frame::Null => String::new(),
            Frame::SimpleString(s) => s.clone(),
            Frame::BatchString(s) => s.clone(),
            Frame::Error(s) => s.clone(),
            Frame::Integer(i) => {
                let mut v: Vec<char> = Vec::new();
                let x = *i;
                if x < 0 {
                    v.push('-');
                    let mag: u64 = (-(x as i128)) as u64;
                    push_dec_chars(&mut v, mag);
                    proof {
                        assert(mag as nat == (-(x as int)) as nat);
                        assert(v@ =~= int_chars(x as int));
                    }
                } else {
                    push_dec_chars(&mut v, x as u64);
                    proof {
                        assert(v@ =~= int_chars(x as int));
                    }
                }
                chars_to_string(v)
            },
            Frame::Array(arr) => {
                let ghost els = models_of(arr@);
                let ghost texts = texts_of(els);
                let mut out: Vec<char> = Vec::new();
                proof {
                    assert(out@ + join_from(texts, 0) =~= join_from(texts, 0));
                }
                let n = arr.len();
                let mut i: usize = 0;
                while i < n
                    invariant
                        0 <= i <= n,
                        n == arr@.len(),
                        *self == Frame::Array(*arr),
                        els == models_of(arr@),
                        texts == texts_of(els),
                        out@ + join_from(texts, i as int) == join_from(texts, 0),
                    decreases n - i,
                {
                    proof {
                        assert(*self == Frame::Array(*arr));
                        assert(decreases_to!(Frame::Array(*arr) => *arr));
                        assert(decreases_to!(*arr => arr@[i as int]));
                    }
                    let t = arr[i].to_string();
                    push_str_chars(&mut out, t.as_str());
                    out.push(' ');
                    proof {
                        assert(texts[i as int] == text_of(els[i as int]));
                        assert(els[i as int] == arr@[i as int]@);
                        assert(join_from(texts, i as int) == texts[i as int] + seq![' ']
                            + join_from(texts, i as int + 1));
                        assert(out@ + join_from(texts, i as int + 1) =~= join_from(texts, 0));
                    }
                    i += 1;
                }
                let ghost joined = join_from(texts, 0);
                proof {
                    assert(join_from(texts, n as int) == Seq::<char>::empty());
                    assert(out@ =~= joined);
                }
                while out.len() > 0 && out[out.len() - 1] == ' '
                    invariant
                        out@.len() <= joined.len(),
                        out@ == joined.subrange(0, out@.len() as int),
                        forall|k: int|
                            out@.len() <= k < joined.len() ==> joined[k] == ' ',
                    decreases out.len(),
                {
                    out.pop();
                    proof {
                        assert(out@ =~= joined.subrange(0, out@.len() as int));
                    }
                }
                proof {
                    lemma_trailing_spaces_props(joined);
                    let ts = trailing_spaces(joined);
                    let m = out@.len() as int;
                    if joined.len() - m < ts {
                        assert(joined[m - 1] == ' ');
                        assert(out@[m - 1] == joined[m - 1]);
                    }
                    if ts < joined.len() - m {
                        assert(joined[joined.len() - ts - 1] == ' ');
                    }
                    assert(m == joined.len() - ts);
                    assert(out@ =~= strip_trailing_spaces(joined));
                }
                chars_to_string(out)
            },
        }
    }

    /// The text of the element at `index` of an array frame; nothing for a
    /// non-array frame or an out-of-range index.
    pub fn get_arg(&self, index: usize) -> (r: Option<String>)
        ensures
            match self@ {
                FrameModel::Array(els) => if (index as int) < els.len() {
                    r is Some && r->Some_0@ == text_of(els[index as int])
                } else {
                    r is None
                },
                _ => r is None,
            },
    {
        match self {
            Frame::Array(arr) => {
                if index < arr.len() {
                    proof {
                        assert(models_of(arr@)[index as int] == arr@[index as int]@);
                    }
                    Some(arr[index].to_string())
                } else {
                    None
                }
            },
            _ => None,
        }
    }

    /// The texts of all elements of an array frame, in order; empty for a
    /// non-array frame.
    pub fn get_args(&self) -> (r: Vec<String>)
        ensures
            match self@ {
                FrameModel::Array(els) => r@.len() == els.len() && forall|i: int|
                    0 <= i < els.len() ==> r@[i]@ == text_of(#[trigger] els[i]),
                _ => r@.len() == 0,
            },
    {
        match self {
            Frame::Array(arr) => {
                let mut out: Vec<String> = Vec::new();
                let n = arr.len();
                let mut i: usize = 0;
                while i < n
                    invariant
                        0 <= i <= n,
                        n == arr@.len(),
                        *self == Frame::Array(*arr),
                        out@.len() == i,
                        forall|k: int|
                            0 <= k < i ==> #[trigger] out@[k]@ == text_of(models_of(arr@)[k]),
                    decreases n - i,
                {
                    let t = arr[i].to_string();
                    proof {
                        assert(models_of(arr@)[i as int] == arr@[i as int]@);
                    }
                    out.push(t);
                    i += 1;
                }
                out
            },
            _ => Vec::new(),
        }
    }

    /// The texts of the elements of an array frame from `start_index` on;
    /// empty for a non-array frame or an out-of-range start.
    pub fn get_args_from_index(&self, start_index: usize) -> (r: Vec<String>)
        ensures
            match self@ {
                FrameModel::Array(els) => if (start_index as int) < els.len() {
                    r@.len() == els.len() - start_index && forall|i: int|
                        0 <= i < r@.len() ==> #[trigger] r@[i]@ == text_of(
                            els[start_index + i],
                        )
                } else {
                    r@.len() == 0
                },
                _ => r@.len() == 0,
            },
    {
        match self {
            Frame::Array(arr) => {
                let n = arr.len();
                if start_index >= n {
                    return Vec::new();
                }
                let mut out: Vec<String> = Vec::new();
                let mut i: usize = start_index;
                while i < n
                    invariant
                        start_index <= i <= n,
                        n == arr@.len(),
                        *self == Frame::Array(*arr),
                        out@.len() == i - start_index,
                        forall|k: int|
                            0 <= k < out@.len() ==> #[trigger] out@[k]@ == text_of(
                                models_of(arr@)[start_index + k],
                            ),
                    decreases n - i,
                {
                    let t = arr[i].to_string();
                    proof {
                        assert(models_of(arr@)[i as int] == arr@[i as int]@);
                    }
                    out.push(t);
                    i += 1;
                }
                out
            },
            _ => Vec::new(),
        }
    }
}


} // verus!
