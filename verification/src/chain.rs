//! Chain decoding: an encoded chain string is a sequence of signed base62
//! tokens. With a hyphen sentinel prefixed, the text must be exactly a
//! concatenation of runs `-{1,2}[0-9A-Za-z]+`: one or two hyphens, then one
//! or more alphabet digits. A double hyphen marks a negative value. Each
//! magnitude is a fixed-point raw count: ten million raw units stand for 1.0.

use vstd::prelude::*;

use crate::base62::b62_val;
use crate::base62::big_to_u64;
use crate::base62::big_val;
use crate::base62::from_base62_bytes;
use crate::base62::is_b62_byte;
use crate::error::DecodeError;
use vstd::string::StringSliceAdditionalSpecFns;

verus! {

/// The ASCII hyphen, the sign and separator byte of the encoding.
pub const HYPHEN: u8 = 45;

/// Largest raw magnitude the decoder accepts: two to the fifty-third power,
/// the largest integer range a binary64 value represents exactly. Beyond it
/// a decoded magnitude could no longer round-trip exactly, so the decoder
/// reports a precision loss instead.
pub const MAX_RAW_MAGNITUDE: u64 = 9007199254740992;

/// The encoded text with the implicit leading hyphen in place.
pub open spec fn prefixed(bytes: Seq<u8>) -> Seq<u8> {
    seq![HYPHEN].add(bytes)
}

/// Length of the maximal run of alphabet digits starting at `j`.
pub open spec fn run_len(p: Seq<u8>, j: int) -> nat
    decreases p.len() - j when j >= 0
{
    if j < p.len() && is_b62_byte(p[j]) {
        1 + run_len(p, j + 1)
    } else {
        0
    }
}

/// A digit run never reaches past the end of the text.
pub proof fn lemma_run_len_le(p: Seq<u8>, j: int)
    requires
        0 <= j <= p.len(),
    ensures
        j + run_len(p, j) <= p.len(),
    decreases p.len() - j,
{
    if j < p.len() && is_b62_byte(p[j]) {
        lemma_run_len_le(p, j + 1);
    }
}

/// A maximal digit run is exactly a scanned stretch of digits that stops at
/// the end of the text or at a non-digit byte.
pub proof fn lemma_run_len_char(p: Seq<u8>, j: int, k: int)
    requires
        0 <= j <= k <= p.len(),
        forall|m: int| j <= m < k ==> is_b62_byte(p[m]),
        k == p.len() || !is_b62_byte(p[k]),
    ensures
        run_len(p, j) == k - j,
    decreases k - j,
{
    if j < k {
        lemma_run_len_char(p, j + 1, k);
    }
}

/// One parsed token: its sign (true means negative) and its digit bytes.
pub open spec fn tok_val(t: (bool, Seq<u8>)) -> int {
    if t.0 {
        -(b62_val(t.1) as int)
    } else {
        b62_val(t.1) as int
    }
}

/// Parses the text from position `i` as a concatenation of signed tokens,
/// each one or two hyphens followed by one or more alphabet digits. `None`
/// means the text does not have that shape.
pub open spec fn parse_from(p: Seq<u8>, i: int) -> Option<Seq<(bool, Seq<u8>)>>
    decreases p.len() - i when i >= 0 via parse_from_dec
{
    if i >= p.len() {
        Some(Seq::empty())
    } else if p[i] != HYPHEN {
        None
    } else {
        let neg = i + 1 < p.len() && p[i + 1] == HYPHEN;
        let j = if neg {
            i + 2
        } else {
            i + 1
        };
        let k = j + run_len(p, j);
        if k == j {
            None
        } else {
            match parse_from(p, k) {
                Some(rest) => Some(seq![(neg, p.subrange(j, k))].add(rest)),
                None => None,
            }
        }
    }
}

#[via_fn]
proof fn parse_from_dec(p: Seq<u8>, i: int) {
    if 0 <= i < p.len() && p[i] == HYPHEN {
        let neg = i + 1 < p.len() && p[i + 1] == HYPHEN;
        let j = if neg {
            i + 2
        } else {
            i + 1
        };
        if j <= p.len() {
            lemma_run_len_le(p, j);
        }
    }
}


/// The error that decoding reports for text that does not decode, found in
/// scan order: a byte where a token must start that is not a hyphen is a
/// foreign character; sign hyphens with no digits after them are a
/// malformed token, unless a foreign byte is what stopped the digits; a
/// well-formed token whose magnitude is out of range is a precision loss.
pub open spec fn decode_err(p: Seq<u8>, i: int) -> DecodeError
    decreases p.len() - i when i >= 0 via decode_err_dec
{
    if i >= p.len() {
        DecodeError::MalformedToken
    } else if p[i] != HYPHEN {
        DecodeError::InvalidCharacter { byte: p[i] }
    } else {
        let neg = i + 1 < p.len() && p[i + 1] == HYPHEN;
        let j = if neg {
            i + 2
        } else {
            i + 1
        };
        let k = j + run_len(p, j);
        if k == j {
            if k >= p.len() || p[k] == HYPHEN {
                DecodeError::MalformedToken
            } else {
                DecodeError::InvalidCharacter { byte: p[k] }
            }
        } else if b62_val(p.subrange(j, k)) > MAX_RAW_MAGNITUDE {
            DecodeError::PrecisionLoss
        } else {
            decode_err(p, k)
        }
    }
}

#[via_fn]
proof fn decode_err_dec(p: Seq<u8>, i: int) {
    if 0 <= i < p.len() && p[i] == HYPHEN {
        let neg = i + 1 < p.len() && p[i + 1] == HYPHEN;
        let j = if neg {
            i + 2
        } else {
            i + 1
        };
        if j <= p.len() {
            lemma_run_len_le(p, j);
        }
    }
}

/// The decoded raw values of an encoded chain, or `None` where decoding
/// fails: the empty text decodes to the empty sequence; otherwise the
/// prefixed text must parse into tokens and every magnitude must stay within
/// [`MAX_RAW_MAGNITUDE`].
pub open spec fn spec_decode(bytes: Seq<u8>) -> Option<Seq<i64>> {
    if bytes.len() == 0 {
        Some(Seq::empty())
    } else {
        match parse_from(prefixed(bytes), 0) {
            Some(toks) => if forall|j: int|
                0 <= j < toks.len() ==> b62_val(#[trigger] toks[j].1) <= MAX_RAW_MAGNITUDE {
                Some(Seq::new(toks.len(), |j: int| tok_val(toks[j]) as i64))
            } else {
                None
            },
            None => None,
        }
    }
}

/// Splits an encoded chain into signed tokens, decodes each magnitude in
/// base62, applies the sign, and returns the raw fixed-point values, one per
/// token, in input order.
///
/// Succeeds exactly on the inputs [`spec_decode`] accepts, with its values;
/// a magnitude beyond [`MAX_RAW_MAGNITUDE`] is a precision loss, and text
/// that does not tokenize is rejected (a byte that is neither a hyphen nor
/// an alphabet digit is named in the error).
pub fn decode(chain: &str) -> (r: Result<Vec<i64>, DecodeError>)
    ensures
        spec_decode(chain.spec_bytes()) matches Some(vals) ==> r matches Ok(v) && v@ == vals,
        spec_decode(chain.spec_bytes()) is None ==> r is Err,
        r matches Ok(v) ==> 2 * v@.len() <= chain.spec_bytes().len() + 1,
        r matches Ok(v) ==> forall|j: int|
            0 <= j < v@.len() ==> -(MAX_RAW_MAGNITUDE as int) <= #[trigger] v@[j] as int
                <= MAX_RAW_MAGNITUDE as int,
        chain.spec_bytes().len() > 0 && parse_from(prefixed(chain.spec_bytes()), 0) is Some
            && r is Err ==> r == Err::<Vec<i64>, DecodeError>(DecodeError::PrecisionLoss),
        chain.spec_bytes().len() > 0 && spec_decode(chain.spec_bytes()) is None ==> r == Err::<
            Vec<i64>,
            DecodeError,
        >(decode_err(prefixed(chain.spec_bytes()), 0)),
{
    let bytes: &[u8] = chain.as_bytes();
    assert(bytes@ == chain.spec_bytes());
    let blen: usize = bytes.len();
    if blen == 0 {
        let empty: Vec<i64> = Vec::new();
        assert(empty@ =~= Seq::<i64>::empty());
        return Ok(empty);
    }
    // materialize the text with its implicit leading hyphen
    let mut pv: Vec<u8> = Vec::new();
    pv.push(HYPHEN);
    let mut bi: usize = 0;
    while bi < blen
        invariant
            0 <= bi <= blen,
            blen == bytes@.len(),
            pv@ == seq![HYPHEN].add(bytes@.take(bi as int)),
        decreases blen - bi,
    {
        pv.push(bytes[bi]);
        proof {
            assert(seq![HYPHEN].add(bytes@.take(bi as int)).push(bytes@[bi as int]) =~= seq![
                HYPHEN,
            ].add(bytes@.take(bi + 1)));
        }
        bi += 1;
    }
    proof {
        assert(bytes@.take(blen as int) =~= bytes@);
    }
    let ghost p = pv@;
    assert(p == prefixed(bytes@));

    let n: usize = pv.len();
    let mut out: Vec<i64> = Vec::new();
    let ghost mut done: Seq<(bool, Seq<u8>)> = Seq::empty();
    let mut i: usize = 0;
    while i < n
        invariant
            0 <= i <= n,
            n == p.len(),
            pv@ == p,
            p == prefixed(bytes@),
            bytes@.len() > 0,
            bytes@ == chain.spec_bytes(),
            out@.len() == done.len(),
            2 * done.len() <= i,
            forall|j: int| 0 <= j < done.len() ==> #[trigger] out@[j] as int == tok_val(done[j]),
            forall|j: int| 0 <= j < done.len() ==> b62_val(#[trigger] done[j].1) <= MAX_RAW_MAGNITUDE,
            i < n ==> !is_b62_byte(p[i as int]),
            decode_err(p, 0) == decode_err(p, i as int),
            match parse_from(p, i as int) {
                Some(rest) => parse_from(p, 0) == Some(done.add(rest)),
                None => parse_from(p, 0) is None,
            },
        decreases n - i,
    {
        let b0 = pv[i];
        if b0 != HYPHEN {
            // a token must start here; the byte is neither a hyphen nor a
            // digit (a digit run never stops before a digit), so the whole
            // text is rejected, naming the byte
            proof {
                assert(parse_from(p, i as int) is None);
                assert(spec_decode(bytes@) is None);
                assert(decode_err(p, i as int) == (DecodeError::InvalidCharacter { byte: b0 }));
            }
            return Err(DecodeError::InvalidCharacter { byte: b0 });
        }
        let mut neg = false;
        let mut j: usize = i + 1;
        if j < n && pv[j] == HYPHEN {
            neg = true;
            j += 1;
        }
        // scan the maximal digit run, collecting the digits
        let mut k: usize = j;
        let mut digits: Vec<u8> = Vec::new();
        while k < n && is_b62_exec(pv[k])
            invariant
                0 <= j <= k <= n,
                n == p.len(),
                pv@ == p,
                digits@ == p.subrange(j as int, k as int),
                forall|m: int| j <= m < k ==> is_b62_byte(p[m]),
            decreases n - k,
        {
            digits.push(pv[k]);
            proof {
                assert(p.subrange(j as int, k as int).push(p[k as int]) =~= p.subrange(
                    j as int,
                    k + 1,
                ));
            }
            k += 1;
        }
        proof {
            lemma_run_len_char(p, j as int, k as int);
        }
        if k == j {
            // a token with no digits: stray or trailing hyphens, or a foreign byte
            if k < n {
                let bk = pv[k];
                if bk == HYPHEN {
                    return Err(DecodeError::MalformedToken);
                }
                return Err(DecodeError::InvalidCharacter { byte: bk });
            }
            return Err(DecodeError::MalformedToken);
        }
        let ghost tok = (neg, p.subrange(j as int, k as int));
        let mag = match from_base62_bytes(digits.as_slice()) {
            Ok(m) => m,
            Err(_) => {
                proof {
                    assert(false);
                }
                return Err(DecodeError::MalformedToken);
            },
        };
        let value_u64 = match big_to_u64(&mag) {
            Some(u) => u,
            None => {
                proof {
                    lemma_oversized_token(p, i as int, done, tok, bytes@);
                }
                return Err(DecodeError::PrecisionLoss);
            },
        };
        if value_u64 > MAX_RAW_MAGNITUDE {
            proof {
                lemma_oversized_token(p, i as int, done, tok, bytes@);
            }
            return Err(DecodeError::PrecisionLoss);
        }
        let raw: i64 = value_u64 as i64;
        let signed: i64 = if neg {
            -raw
        } else {
            raw
        };
        out.push(signed);
        proof {
            assert(p[i as int] == HYPHEN);
            match parse_from(p, k as int) {
                Some(rest) => {
                    assert(parse_from(p, i as int) == Some(seq![tok].add(rest)));
                    assert(done.push(tok).add(rest) =~= done.add(seq![tok].add(rest)));
                },
                None => {
                    assert(parse_from(p, i as int) is None);
                },
            }
            done = done.push(tok);
        }
        i = k;
    }
    proof {
        assert(parse_from(p, n as int) == Some(Seq::<(bool, Seq<u8>)>::empty()));
        assert(done.add(Seq::empty()) =~= done);
        let toks = parse_from(p, 0)->Some_0;
        assert(out@ =~= Seq::new(toks.len(), |j: int| tok_val(toks[j]) as i64));
    }
    Ok(out)
}

/// A token whose magnitude is too large makes the whole decode fail.
proof fn lemma_oversized_token(
    p: Seq<u8>,
    i: int,
    done: Seq<(bool, Seq<u8>)>,
    tok: (bool, Seq<u8>),
    bytes: Seq<u8>,
)
    requires
        bytes.len() > 0,
        p == prefixed(bytes),
        0 <= i < p.len(),
        p[i] == HYPHEN,
        ({
            let neg = i + 1 < p.len() && p[i + 1] == HYPHEN;
            let j = if neg {
                i + 2
            } else {
                i + 1
            };
            let k = j + run_len(p, j);
            k != j && tok == (neg, p.subrange(j, k))
        }),
        match parse_from(p, i) {
            Some(rest) => parse_from(p, 0) == Some(done.add(rest)),
            None => parse_from(p, 0) is None,
        },
        b62_val(tok.1) > MAX_RAW_MAGNITUDE,
    ensures
        spec_decode(bytes) is None,
{
    let neg = i + 1 < p.len() && p[i + 1] == HYPHEN;
    let j = if neg {
        i + 2
    } else {
        i + 1
    };
    let k = j + run_len(p, j);
    match parse_from(p, k) {
        Some(rest) => {
            assert(parse_from(p, i) == Some(seq![tok].add(rest)));
            let toks = done.add(seq![tok].add(rest));
            assert(parse_from(p, 0) == Some(toks));
            assert(toks[done.len() as int] == tok);
            assert(b62_val(toks[done.len() as int].1) > MAX_RAW_MAGNITUDE);
        },
        None => {
            assert(parse_from(p, i) is None);
        },
    }
}

/// Exec mirror of [`is_b62_byte`].
fn is_b62_exec(b: u8) -> (r: bool)
    ensures
        r == is_b62_byte(b),
{
    (48 <= b && b <= 57) || (65 <= b && b <= 90) || (97 <= b && b <= 122)
}

/// Law: a byte that is neither a hyphen nor an alphabet digit anywhere in a
/// non-empty input forces decoding to fail: no token sequence parses across
/// it, so `decode` returns an error, never a silently wrong value.
pub proof fn lemma_decode_rejects_foreign_byte(bytes: Seq<u8>, i: int)
    requires
        0 <= i < bytes.len(),
        !is_b62_byte(bytes[i]),
        bytes[i] != HYPHEN,
    ensures
        spec_decode(bytes) is None,
{
    if parse_from(prefixed(bytes), 0) is Some {
        lemma_parse_covers(prefixed(bytes), 0, i + 1);
    }
}

/// Every byte that a successful parse covers is a hyphen or a digit.
proof fn lemma_parse_covers(p: Seq<u8>, i: int, idx: int)
    requires
        0 <= i <= idx < p.len(),
        parse_from(p, i) is Some,
    ensures
        is_b62_byte(p[idx]) || p[idx] == HYPHEN,
    decreases p.len() - i,
{
    let neg = i + 1 < p.len() && p[i + 1] == HYPHEN;
    let j = if neg {
        i + 2
    } else {
        i + 1
    };
    lemma_run_len_le(p, j);
    let k = j + run_len(p, j);
    if idx >= k {
        lemma_parse_covers(p, k, idx);
    } else if idx >= j {
        lemma_run_covers(p, j, idx);
    }
}

/// Every byte strictly inside a digit run is a digit.
proof fn lemma_run_covers(p: Seq<u8>, j: int, idx: int)
    requires
        0 <= j <= idx < p.len(),
        idx < j + run_len(p, j),
    ensures
        is_b62_byte(p[idx]),
    decreases idx - j,
{
    if idx > j {
        lemma_run_covers(p, j + 1, idx);
    }
}

} // verus!
