//! Binary-safe growable byte buffer: the value representation used by the
//! rest of the engine.  Supports copying constructors, zero-filled growth,
//! concatenation, Python-style signed-index slicing, and trimming.

use vstd::prelude::*;
use vstd::slice::{slice_subrange, slice_to_vec};
use vstd::string::StringSliceAdditionalSpecFns;

verus! {

/// Normalized start index of a signed slice bound over a buffer of length
/// `len`: negative values count from the end, underflow clamps to 0, and a
/// start at or past the end resets to 0 (deliberately, rather than yielding
/// an empty result).
pub open spec fn norm_start(start: int, len: int) -> int {
    let s = if start < 0 {
        if len + start < 0 {
            0
        } else {
            len + start
        }
    } else {
        start
    };
    if s >= len {
        0
    } else {
        s
    }
}

/// Normalized (exclusive) end index of a signed slice bound: negative values
/// count from the end with `-1` naming the last byte (so the exclusive end is
/// `len + end + 1`), underflow clamps to 0, and overshoot clamps to `len`.
pub open spec fn norm_end(end: int, len: int) -> int {
    let e = if end < 0 {
        if len + end + 1 < 0 {
            0
        } else {
            len + end + 1
        }
    } else {
        end
    };
    if e > len {
        len
    } else {
        e
    }
}

/// The contents of a buffer `s` after slicing with signed bounds `start` and
/// `end`: the half-open byte range `[norm_start, norm_end)`, empty when the
/// normalized bounds cross, and `s` itself when `s` is empty.
pub open spec fn slice_model(s: Seq<u8>, start: int, end: int) -> Seq<u8> {
    if s.len() == 0 {
        s
    } else {
        let lo = norm_start(start, s.len() as int);
        let hi = norm_end(end, s.len() as int);
        if lo >= hi {
            Seq::empty()
        } else {
            s.subrange(lo, hi)
        }
    }
}

/// The contents of a buffer `s` after growing to length `n` with zero fill:
/// unchanged when `n` does not exceed the current length, else padded with
/// zero bytes to exactly `n`.
pub open spec fn grow_zero_model(s: Seq<u8>, n: int) -> Seq<u8> {
    if n <= s.len() {
        s
    } else {
        s + Seq::new((n - s.len()) as nat, |k: int| 0u8)
    }
}

/// Number of leading bytes of `s` that all belong to `cset`.
pub open spec fn run_from_left(s: Seq<u8>, cset: Seq<u8>) -> int
    decreases s.len(),
{
    if s.len() == 0 {
        0
    } else if cset.contains(s[0]) {
        1 + run_from_left(s.subrange(1, s.len() as int), cset)
    } else {
        0
    }
}

/// Number of trailing bytes of `s` that all belong to `cset`.
pub open spec fn run_from_right(s: Seq<u8>, cset: Seq<u8>) -> int
    decreases s.len(),
{
    if s.len() == 0 {
        0
    } else if cset.contains(s.last()) {
        1 + run_from_right(s.drop_last(), cset)
    } else {
        0
    }
}

/// The contents of `s` with the maximal runs of `cset` bytes removed from
/// both ends: empty when every byte of `s` is in `cset`.
pub open spec fn trim_model(s: Seq<u8>, cset: Seq<u8>) -> Seq<u8> {
    let i = run_from_left(s, cset);
    if i == s.len() {
        Seq::empty()
    } else {
        s.subrange(i, s.len() - run_from_right(s, cset))
    }
}

/// The leading run is a well-formed prefix: every byte before it is in
/// `cset`, and the byte right after it (if any) is not.
pub proof fn lemma_run_from_left(s: Seq<u8>, cset: Seq<u8>)
    ensures
        0 <= run_from_left(s, cset) <= s.len(),
        forall|k: int| 0 <= k < run_from_left(s, cset) ==> cset.contains(s[k]),
        run_from_left(s, cset) < s.len() ==> !cset.contains(s[run_from_left(s, cset)]),
    decreases s.len(),
{
    if s.len() > 0 && cset.contains(s[0]) {
        let t = s.subrange(1, s.len() as int);
        lemma_run_from_left(t, cset);
        assert forall|k: int| 0 <= k < run_from_left(s, cset) implies cset.contains(s[k]) by {
            if k > 0 {
                assert(s[k] == t[k - 1]);
            }
        }
        if run_from_left(s, cset) < s.len() {
            assert(s[run_from_left(s, cset)] == t[run_from_left(t, cset)]);
        }
    }
}

/// The trailing run is a well-formed suffix: every byte in it is in `cset`,
/// and the byte right before it (if any) is not.
pub proof fn lemma_run_from_right(s: Seq<u8>, cset: Seq<u8>)
    ensures
        0 <= run_from_right(s, cset) <= s.len(),
        forall|k: int| s.len() - run_from_right(s, cset) <= k < s.len() ==> cset.contains(s[k]),
        run_from_right(s, cset) < s.len() ==> !cset.contains(
            s[s.len() - run_from_right(s, cset) - 1],
        ),
    decreases s.len(),
{
    if s.len() > 0 && cset.contains(s.last()) {
        let t = s.drop_last();
        lemma_run_from_right(t, cset);
        assert forall|k: int|
            s.len() - run_from_right(s, cset) <= k < s.len() implies cset.contains(s[k]) by {
            if k < s.len() - 1 {
                assert(s[k] == t[k]);
            }
        }
        if run_from_right(s, cset) < s.len() {
            assert(s[s.len() - run_from_right(s, cset) - 1] == t[t.len() - run_from_right(
                t,
                cset,
            ) - 1]);
        }
    }
}


/// Law: slicing never grows a buffer, and for in-range non-negative bounds
/// it selects exactly the half-open byte range `[start, end)`.
pub proof fn lemma_slice_model_bounds(s: Seq<u8>, start: int, end: int)
    ensures
        0 <= slice_model(s, start, end).len() <= s.len(),
        0 <= start <= end <= s.len() && start < s.len() ==> slice_model(s, start, end)
            == s.subrange(start, end),
{
    if s.len() > 0 {
        let lo = norm_start(start, s.len() as int);
        let hi = norm_end(end, s.len() as int);
        if 0 <= start <= end <= s.len() && start < s.len() {
            assert(lo == start && hi == end);
            if start == end {
                assert(slice_model(s, start, end) =~= s.subrange(start, end));
            }
        }
    }
}

/// Whether `b` occurs in the byte slice `cset`.
fn contains_byte(cset: &[u8], b: u8) -> (r: bool)
    ensures
        r == cset@.contains(b),
{
    let n = cset.len();
    let mut k: usize = 0;
    while k < n
        invariant
            0 <= k <= n,
            n == cset@.len(),
            forall|t: int| 0 <= t < k ==> cset@[t] != b,
        decreases n - k,
    {
        if cset[k] == b {
            assert(cset@[k as int] == b);
            return true;
        }
        k += 1;
    }
    false
}

/// A binary-safe, growable sequence of bytes.  No encoding is assumed:
/// every operation works in byte units, and content is never required to be
/// UTF-8.  Each buffer exclusively owns its bytes; copies never alias.
#[derive(Debug)]
pub struct ByteString {
    buf: Vec<u8>,
}

impl View for ByteString {
    type V = Seq<u8>;

    closed spec fn view(&self) -> Seq<u8> {
        self.buf@
    }
}

/// Whether two byte vectors hold the same bytes.
fn eq_bytes(a: &Vec<u8>, b: &Vec<u8>) -> (r: bool)
    ensures
        r == (a@ == b@),
{
    if a.len() != b.len() {
        return false;
    }
    let n = a.len();
    let mut k: usize = 0;
    while k < n
        invariant
            0 <= k <= n,
            n == a@.len() == b@.len(),
            forall|t: int| 0 <= t < k ==> a@[t] == b@[t],
        decreases n - k,
    {
        if a[k] != b[k] {
            return false;
        }
        k += 1;
    }
    proof {
        assert(a@ =~= b@);
    }
    true
}

impl PartialEq for ByteString {
    fn eq(&self, other: &ByteString) -> (r: bool) {
        eq_bytes(&self.buf, &other.buf)
    }
}

impl Eq for ByteString {

}

impl vstd::std_specs::cmp::PartialEqSpecImpl for ByteString {
    open spec fn obeys_eq_spec() -> bool {
        true
    }

    open spec fn eq_spec(&self, other: &ByteString) -> bool {
        self@ == other@
    }
}

impl ByteString {
    /// Creates a buffer holding a copy of the UTF-8 bytes of `s`.
    pub fn new(s: &str) -> (r: Self)
        ensures
            r@ == s.spec_bytes(),
    {
        ByteString { buf: slice_to_vec(s.as_bytes()) }
    }

    /// Creates a buffer holding an independent copy of `bs`'s bytes.
    pub fn new_from(bs: &ByteString) -> (r: Self)
        ensures
            r@ == bs@,
    {
        ByteString { buf: slice_to_vec(bs.buf.as_slice()) }
    }

    /// Creates a buffer holding a copy of the byte slice `ss`.
    pub fn new_from_bytes(ss: &[u8]) -> (r: Self)
        ensures
            r@ == ss@,
    {
        ByteString { buf: slice_to_vec(ss) }
    }

    /// Returns an independent copy of this buffer, never an alias.
    pub fn dup(&self) -> (r: ByteString)
        ensures
            r@ == self@,
    {
        ByteString { buf: slice_to_vec(self.buf.as_slice()) }
    }

    /// The bytes held, in order.
    pub fn as_bytes(&self) -> (r: &[u8])
        ensures
            r@ == self@,
    {
        self.buf.as_slice()
    }

    /// The number of bytes held.
    pub fn len(&self) -> (r: usize)
        ensures
            r == self@.len(),
    {
        self.buf.len()
    }

    /// The number of bytes the buffer can hold without reallocating; at
    /// least the current length.  Relies on `Vec::capacity`, whose result
    /// depends on the allocator and is otherwise unspecified.
    #[verifier::external_body]
    pub fn capacity(&self) -> (r: usize)
        ensures
            r >= self@.len(),
    {
        self.buf.capacity()
    }

    /// Grows the buffer in place to exactly `len` bytes by appending zero
    /// bytes; a no-op when `len` does not exceed the current length (never
    /// truncates).
    pub fn grow_zero(&mut self, len: usize)
        ensures
            final(self)@ == grow_zero_model(old(self)@, len as int),
    {
        let mut i = self.buf.len();
        if len <= i {
            return ;
        }
        while i < len
            invariant
                i == self@.len(),
                old(self)@.len() <= i <= len,
                forall|k: int| 0 <= k < old(self)@.len() ==> self@[k] == old(self)@[k],
                forall|k: int| old(self)@.len() <= k < i ==> self@[k] == 0u8,
            decreases len - i,
        {
            self.buf.push(0u8);
            i += 1;
        }
        proof {
            assert(self@ =~= grow_zero_model(old(self)@, len as int));
        }
    }

    /// Appends a copy of `bs`'s bytes to this buffer in place.
    pub fn cat(&mut self, bs: &ByteString)
        ensures
            final(self)@ == old(self)@ + bs@,
    {
        let n = bs.buf.len();
        let mut i: usize = 0;
        while i < n
            invariant
                0 <= i <= n,
                n == bs@.len(),
                self@.len() == old(self)@.len() + i,
                forall|k: int| 0 <= k < old(self)@.len() ==> self@[k] == old(self)@[k],
                forall|k: int| 0 <= k < i ==> self@[old(self)@.len() + k] == bs@[k],
            decreases n - i,
        {
            self.buf.push(bs.buf[i]);
            i += 1;
        }
        proof {
            assert(self@ =~= old(self)@ + bs@);
        }
    }

    /// Replaces the contents in place with the signed-index slice
    /// `[start, end)` after normalization: negative indexes count from the
    /// end (`-1` is the last byte), underflowing bounds clamp to 0, a start
    /// at or past the end resets to 0, an end past the end clamps to the
    /// length, and crossed bounds yield an empty buffer.  An empty buffer is
    /// left unchanged.
    pub fn range(&mut self, start: i64, end: i64)
        ensures
            final(self)@ == slice_model(old(self)@, start as int, end as int),
    {
        let sz = self.buf.len();
        if sz == 0 {
            return ;
        }
        let szi: i128 = sz as i128;
        let mut s: i128 = start as i128;
        let mut e: i128 = end as i128;
        if s < 0 {
            s = szi + s;
            if s < 0 {
                s = 0;
            }
        }
        if e < 0 {
            e = szi + e + 1;
            if e < 0 {
                e = 0;
            }
        }
        if s >= szi {
            s = 0;
        }
        if e > szi {
            e = szi;
        }
        if s >= e {
            self.buf.clear();
            return ;
        }
        let lo = s as usize;
        let hi = e as usize;
        let out = slice_to_vec(slice_subrange(self.buf.as_slice(), lo, hi));
        self.buf = out;
    }

    /// Empties the buffer; capacity may be retained.
    pub fn clear(&mut self)
        ensures
            final(self)@ == Seq::<u8>::empty(),
    {
        self.buf.clear();
        proof {
            assert(self@ =~= Seq::<u8>::empty());
        }
    }

    /// Returns a new buffer with the maximal contiguous runs of bytes drawn
    /// from `cset` removed from both ends; the receiver is unchanged.  An
    /// all-`cset` (or empty) buffer trims to an empty buffer.
    pub fn trim(&self, cset: &[u8]) -> (r: ByteString)
        ensures
            r@ == trim_model(self@, cset@),
    {
        let n = self.buf.len();
        let mut i: usize = 0;
        while i < n && contains_byte(cset, self.buf[i])
            invariant
                0 <= i <= n,
                n == self@.len(),
                forall|k: int| 0 <= k < i ==> cset@.contains(self@[k]),
            decreases n - i,
        {
            i += 1;
        }
        proof {
            lemma_run_from_left(self@, cset@);
        }
        if i == n {
            let r = ByteString { buf: Vec::new() };
            proof {
                assert(run_from_left(self@, cset@) == n as int);
            }
            return r;
        }
        assert(!cset@.contains(self@[i as int]));
        assert(i as int == run_from_left(self@, cset@));
        let mut j: usize = n;
        while j > i && contains_byte(cset, self.buf[j - 1])
            invariant
                i < j <= n,
                i < n,
                n == self@.len(),
                !cset@.contains(self@[i as int]),
                forall|k: int| j <= k < n ==> cset@.contains(self@[k]),
            decreases j,
        {
            proof {
                if j - 1 == i {
                    assert(cset@.contains(self@[i as int]));
                }
            }
            j -= 1;
        }
        assert(!cset@.contains(self@[j - 1]));
        proof {
            lemma_run_from_right(self@, cset@);
            let rr = run_from_right(self@, cset@);
            if n - j < rr {
                assert(cset@.contains(self@[j - 1]));
            }
            if rr < n - j {
                assert(cset@.contains(self@[n - rr - 1]));
            }
            assert(n - j == rr);
        }
        ByteString { buf: slice_to_vec(slice_subrange(self.buf.as_slice(), i, j)) }
    }
}

} // verus!
