//! Command parsing over decoded frames: extracting the key (and, for the
//! store command, the value and an optional expiry) from a request frame's
//! argument texts.

use crate::frame::{text_of, texts_of, Frame, FrameModel};
use vstd::prelude::*;
use vstd::string::StrSliceExecFns;

verus! {

/// The argument texts of a frame: its elements' texts for an array frame,
/// nothing otherwise.
pub open spec fn args_of(m: FrameModel) -> Seq<Seq<char>> {
    match m {
        FrameModel::Array(els) => texts_of(els),
        _ => Seq::empty(),
    }
}

/// Texts of a sequence of strings, elementwise.
pub open spec fn strs_chars(v: Seq<String>) -> Seq<Seq<char>> {
    Seq::new(
        v.len(),
        |i: int|
            if 0 <= i < v.len() {
                v[i]@
            } else {
                Seq::empty()
            },
    )
}

/// The decimal value of the digit character `c`, or -1 when `c` is none.
pub open spec fn char_digit(c: char) -> int {
    if c == '0' {
        0
    } else if c == '1' {
        1
    } else if c == '2' {
        2
    } else if c == '3' {
        3
    } else if c == '4' {
        4
    } else if c == '5' {
        5
    } else if c == '6' {
        6
    } else if c == '7' {
        7
    } else if c == '8' {
        8
    } else if c == '9' {
        9
    } else {
        -1
    }
}

/// Whether every character of `s` is a decimal digit.
pub open spec fn all_digit_chars(s: Seq<char>) -> bool {
    forall|k: int| 0 <= k < s.len() ==> char_digit(#[trigger] s[k]) >= 0
}

/// The value of `s` read as decimal digit characters.
pub open spec fn chars_val(s: Seq<char>) -> int
    decreases s.len(),
{
    if s.len() == 0 {
        0
    } else {
        chars_val(s.drop_last()) * 10 + char_digit(s.last())
    }
}

/// The unsigned 64-bit number denoted by `s` (optional leading `+`), if
/// `s` is one and its value fits.
pub open spec fn parse_u64_chars(s: Seq<char>) -> Option<int> {
    let d = if s.len() > 0 && s[0] == '+' {
        s.subrange(1, s.len() as int)
    } else {
        s
    };
    if d.len() > 0 && all_digit_chars(d) && chars_val(d) <= 0xffff_ffff_ffff_ffff {
        Some(chars_val(d))
    } else {
        None
    }
}

/// A digit string's value is never negative.
pub proof fn lemma_chars_val_nonneg(s: Seq<char>)
    requires
        all_digit_chars(s),
    ensures
        chars_val(s) >= 0,
    decreases s.len(),
{
    if s.len() > 0 {
        assert(all_digit_chars(s.drop_last())) by {
            assert(forall|k: int|
                0 <= k < s.len() - 1 ==> s.drop_last()[k] == #[trigger] s[k]);
        }
        lemma_chars_val_nonneg(s.drop_last());
    }
}

/// Reading one more digit multiplies the prefix value by ten.
pub proof fn lemma_chars_val_take_step(s: Seq<char>, i: int)
    requires
        0 <= i < s.len(),
    ensures
        chars_val(s.subrange(0, i + 1)) == chars_val(s.subrange(0, i)) * 10 + char_digit(s[i]),
{
    assert(s.subrange(0, i + 1).drop_last() =~= s.subrange(0, i));
    assert(s.subrange(0, i + 1).last() == s[i]);
}

/// A prefix of a digit string never exceeds the whole string's value.
pub proof fn lemma_chars_val_take_le(s: Seq<char>, i: int)
    requires
        all_digit_chars(s),
        0 <= i <= s.len(),
    ensures
        chars_val(s.subrange(0, i)) <= chars_val(s),
    decreases s.len() - i,
{
    if i == s.len() {
        assert(s.subrange(0, i) =~= s);
    } else {
        lemma_chars_val_take_step(s, i);
        assert(all_digit_chars(s.subrange(0, i))) by {
            assert(forall|k: int|
                0 <= k < i ==> s.subrange(0, i)[k] == #[trigger] s[k]);
        }
        lemma_chars_val_nonneg(s.subrange(0, i));
        lemma_chars_val_take_le(s, i + 1);
    }
}

/// The decimal value of digit character `c`, if it is one.
fn digit_of_char(c: char) -> (r: Option<u64>)
    ensures
        char_digit(c) >= 0 <==> r is Some,
        r is Some ==> r->Some_0 == char_digit(c),
{
    if c == '0' {
        Some(0)
    } else if c == '1' {
        Some(1)
    } else if c == '2' {
        Some(2)
    } else if c == '3' {
        Some(3)
    } else if c == '4' {
        Some(4)
    } else if c == '5' {
        Some(5)
    } else if c == '6' {
        Some(6)
    } else if c == '7' {
        Some(7)
    } else if c == '8' {
        Some(8)
    } else if c == '9' {
        Some(9)
    } else {
        None
    }
}

/// Parses `s` as an unsigned 64-bit decimal number (optional leading `+`).
#[verifier::loop_isolation(false)]
fn parse_u64_str(s: &str) -> (r: Option<u64>)
    ensures
        match r {
            Some(v) => parse_u64_chars(s@) == Some(v as int),
            None => parse_u64_chars(s@) is None,
        },
{
    let n = s.unicode_len();
    let start: usize = if n > 0 && s.get_char(0) == '+' {
        1
    } else {
        0
    };
    let ghost d = if s@.len() > 0 && s@[0] == '+' {
        s@.subrange(1, s@.len() as int)
    } else {
        s@
    };
    proof {
        assert(d =~= s@.subrange(start as int, n as int));
    }
    if start == n {
        return None;
    }
    let mut i = start;
    while i < n
        invariant
            start <= i <= n,
            forall|k: int| 0 <= k < i - start ==> char_digit(#[trigger] d[k]) >= 0,
        decreases n - i,
    {
        let c = s.get_char(i);
        proof {
            assert(d[i - start] == s@[i as int]);
        }
        if digit_of_char(c).is_none() {
            proof {
                assert(!all_digit_chars(d));
            }
            return None;
        }
        i += 1;
    }
    assert(all_digit_chars(d));
    let mut acc: u64 = 0;
    let mut j = start;
    while j < n
        invariant
            start <= j <= n,
            all_digit_chars(d),
            acc as int == chars_val(d.subrange(0, j - start)),
        decreases n - j,
    {
        let c = s.get_char(j);
        proof {
            assert(d[j - start] == s@[j as int]);
        }
        let dv = match digit_of_char(c) {
            Some(v) => v,
            None => {
                return None;
            },
        };
        if acc > (u64::MAX - dv) / 10 {
            proof {
                assert(acc * 10 + dv > u64::MAX) by (nonlinear_arith)
                    requires
                        acc > (u64::MAX - dv) / 10,
                        0 <= dv <= 9,
                        u64::MAX == 0xffff_ffff_ffff_ffff,
                ;
                lemma_chars_val_take_step(d, j - start);
                lemma_chars_val_take_le(d, j - start + 1);
            }
            return None;
        }
        proof {
            assert(acc * 10 + dv <= u64::MAX) by (nonlinear_arith)
                requires
                    acc <= (u64::MAX - dv) / 10,
                    0 <= dv <= 9,
                    u64::MAX == 0xffff_ffff_ffff_ffff,
            ;
            lemma_chars_val_take_step(d, j - start);
        }
        acc = acc * 10 + dv;
        j += 1;
    }
    proof {
        assert(d.subrange(0, (n - start) as int) =~= d);
    }
    Some(acc)
}

/// Whether `s` is exactly the two characters `c0`, `c1`.
fn is_two_chars(s: &str, c0: char, c1: char) -> (r: bool)
    ensures
        r == (s@ == seq![c0, c1]),
{
    if s.unicode_len() != 2 {
        return false;
    }
    let r = s.get_char(0) == c0 && s.get_char(1) == c1;
    proof {
        if s@[0] == c0 && s@[1] == c1 {
            assert(s@ =~= seq![c0, c1]);
        }
    }
    r
}

/// A command's arguments were rejected: the wrong count, or an expiry that
/// is not an unsigned decimal number (or does not fit once scaled).
#[derive(Debug, PartialEq, Eq, Structural)]
pub enum CmdError {
    InvalidArguments,
    InvalidTtl,
}

/// Outcome of scanning the trailing arguments for an expiry option.
pub enum TtlScan {
    NotFound,
    Value(int),
    Bad,
}

/// Scans `args[i..]` for the first `NX` or `PX` option with a successor
/// argument: `NX` reads seconds (scaled by 1000 into milliseconds), `PX`
/// reads milliseconds; a malformed or overflowing number is `Bad`; an
/// option word with no successor is skipped.
pub open spec fn ttl_scan(args: Seq<Seq<char>>, i: int) -> TtlScan
    decreases args.len() - i,
{
    if i < 0 || i >= args.len() {
        TtlScan::NotFound
    } else if args[i] == seq!['N', 'X'] && i + 1 < args.len() {
        match parse_u64_chars(args[i + 1]) {
            Some(v) => if v * 1000 <= 0xffff_ffff_ffff_ffff {
                TtlScan::Value(v * 1000)
            } else {
                TtlScan::Bad
            },
            None => TtlScan::Bad,
        }
    } else if args[i] == seq!['P', 'X'] && i + 1 < args.len() {
        match parse_u64_chars(args[i + 1]) {
            Some(v) => TtlScan::Value(v),
            None => TtlScan::Bad,
        }
    } else {
        ttl_scan(args, i + 1)
    }
}

/// The retrieval command: holds the key to read.
pub struct CmdGet {
    pub key: String,
}

impl CmdGet {
    /// Builds the command from a request frame: exactly two arguments, the
    /// verb and the key.
    pub fn from_frame(fm: Frame) -> (r: Result<Self, CmdError>)
        ensures
            r is Ok <==> args_of(fm@).len() == 2,
            r is Ok ==> r->Ok_0.key@ == args_of(fm@)[1],
    {
        let args = fm.get_args();
        proof {
            assert(args@.len() == args_of(fm@).len());
        }
        if args.len() != 2 {
            return Err(CmdError::InvalidArguments);
        }
        Ok(CmdGet { key: args[1].clone() })
    }
}

/// The store command: the key, the value, and an optional expiry in
/// milliseconds.
pub struct CmdSet {
    pub key: String,
    pub val: String,
    pub ttl: Option<u64>,
}

/// Scans a request's trailing arguments for an expiry option, as `ttl_scan`
/// describes.
#[verifier::loop_isolation(false)]
fn scan_ttl(args: &Vec<String>) -> (r: Result<Option<u64>, CmdError>)
    requires
        args@.len() >= 3,
    ensures
        ({
            let a = strs_chars(args@);
            match ttl_scan(a, 3) {
                TtlScan::NotFound => r == Ok::<Option<u64>, CmdError>(None),
                TtlScan::Value(v) => r is Ok && r->Ok_0 is Some && r->Ok_0->Some_0 == v,
                TtlScan::Bad => r == Err::<Option<u64>, CmdError>(CmdError::InvalidTtl),
            }
        }),
{
    let ghost a = strs_chars(args@);
    let n = args.len();
    let mut idx: usize = 3;
    while idx < n
        invariant
            3 <= idx <= n,
            ttl_scan(a, 3) == ttl_scan(a, idx as int),
        decreases n - idx,
    {
        proof {
            assert(a[idx as int] == args@[idx as int]@);
        }
        let is_nx = is_two_chars(args[idx].as_str(), 'N', 'X');
        let is_px = is_two_chars(args[idx].as_str(), 'P', 'X');
        if (is_nx || is_px) && idx + 1 < n {
            proof {
                assert(a[idx as int + 1] == args@[idx as int + 1]@);
            }
            let v = match parse_u64_str(args[idx + 1].as_str()) {
                Some(v) => v,
                None => {
                    return Err(CmdError::InvalidTtl);
                },
            };
            if is_nx {
                if v > u64::MAX / 1000 {
                    proof {
                        assert((v as int) * 1000 > u64::MAX) by (nonlinear_arith)
                            requires
                                v > u64::MAX / 1000,
                                u64::MAX == 0xffff_ffff_ffff_ffff,
                        ;
                    }
                    return Err(CmdError::InvalidTtl);
                }
                proof {
                    assert((v as int) * 1000 <= u64::MAX) by (nonlinear_arith)
                        requires
                            v <= u64::MAX / 1000,
                            u64::MAX == 0xffff_ffff_ffff_ffff,
                    ;
                }
                return Ok(Some(v * 1000));
            }
            return Ok(Some(v));
        }
        idx += 1;
    }
    Ok(None)
}

impl CmdSet {
    /// Builds the command from a request frame: the verb, the key, the
    /// value, and optionally an expiry (`NX` seconds or `PX` milliseconds,
    /// read from the following argument).  A frame with fewer than three
    /// argument texts is rejected with the invalid-arguments error.
    pub fn from_frame(fm: Frame) -> (r: Result<Self, CmdError>)
        ensures
            ({
                let args = args_of(fm@);
                &&& args.len() < 3 ==> r == Err::<CmdSet, CmdError>(
                    CmdError::InvalidArguments,
                )
                &&& args.len() >= 3 ==> {
                    &&& (r is Ok <==> !(ttl_scan(args, 3) is Bad))
                    &&& (r is Err ==> r == Err::<CmdSet, CmdError>(CmdError::InvalidTtl))
                    &&& r is Ok ==> {
                        &&& r->Ok_0.key@ == args[1]
                        &&& r->Ok_0.val@ == args[2]
                        &&& (match ttl_scan(args, 3) {
                            TtlScan::NotFound => r->Ok_0.ttl is None,
                            TtlScan::Value(v) => r->Ok_0.ttl is Some
                                && r->Ok_0.ttl->Some_0 == v,
                            TtlScan::Bad => false,
                        })
                    }
                }
            }),
    {
        let args = fm.get_args();
        proof {
            assert(args@.len() == args_of(fm@).len());
            assert(strs_chars(args@) =~= args_of(fm@));
        }
        if args.len() < 3 {
            return Err(CmdError::InvalidArguments);
        }
        let ttl = match scan_ttl(&args) {
            Ok(t) => t,
            Err(e) => {
                return Err(e);
            },
        };
        Ok(CmdSet { key: args[1].clone(), val: args[2].clone(), ttl })
    }
}

} // verus!
