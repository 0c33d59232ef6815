//! Percent-encoding over the RFC 3986 unreserved set.
//!
//! Every byte except ASCII letters, digits and `-` `.` `_` `~` is written
//! as `%XX` with uppercase hex digits. This is the encoding OAuth 1.0a
//! requires both for the signature base string and for the header values.

use vstd::prelude::*;

verus! {

/// A byte that passes through percent-encoding unchanged: an ASCII letter,
/// a digit, or one of `-` `.` `_` `~` (the RFC 3986 unreserved set).
pub open spec fn is_unreserved(b: u8) -> bool {
    (65 <= b && b <= 90) || (97 <= b && b <= 122) || (48 <= b && b <= 57)
        || b == 45 || b == 46 || b == 95 || b == 126
}

/// The uppercase hex digit for a nibble.
pub open spec fn hex_upper(n: u8) -> u8
    recommends
        n < 16,
{
    if n < 10 {
        (n + 48) as u8
    } else {
        (n + (55)) as u8
    }
}

/// What one byte becomes under percent-encoding.
pub open spec fn encoded_byte(b: u8) -> Seq<u8> {
    if is_unreserved(b) {
        seq![b]
    } else {
        seq![37, hex_upper(b / 16), hex_upper(b % 16)]
    }
}

/// The percent-encoding of a byte string.
pub open spec fn percent_encoded(s: Seq<u8>) -> Seq<u8>
    decreases s.len(),
{
    if s.len() == 0 {
        Seq::empty()
    } else {
        encoded_byte(s[0]) + percent_encoded(s.drop_first())
    }
}

/// An uppercase hex digit, as decoding accepts it.
pub open spec fn is_hex_upper_digit(b: u8) -> bool {
    (48 <= b && b <= 57) || (65 <= b && b <= 70)
}

/// The value of an uppercase hex digit.
pub open spec fn hex_val(b: u8) -> u8
    recommends
        is_hex_upper_digit(b),
{
    if b <= 57 {
        (b - 48) as u8
    } else {
        (b - (55)) as u8
    }
}

/// Percent-decoding: `%XX` escapes (uppercase hex) turn back into their
/// byte, any other byte stands for itself; a malformed escape fails.
pub open spec fn percent_decoded(s: Seq<u8>) -> Option<Seq<u8>>
    decreases s.len(),
{
    if s.len() == 0 {
        Some(Seq::empty())
    } else if s[0] == 37 {
        if s.len() >= 3 && is_hex_upper_digit(s[1]) && is_hex_upper_digit(s[2]) {
            match percent_decoded(s.skip(3)) {
                Some(rest) => Some(seq![(hex_val(s[1]) * 16 + hex_val(s[2])) as u8] + rest),
                None => None,
            }
        } else {
            None
        }
    } else {
        match percent_decoded(s.drop_first()) {
            Some(rest) => Some(seq![s[0]] + rest),
            None => None,
        }
    }
}

/// Appending a byte appends its encoding.
pub proof fn lemma_percent_encoded_push(s: Seq<u8>, b: u8)
    ensures
        percent_encoded(s.push(b)) == percent_encoded(s) + encoded_byte(b),
    decreases s.len(),
{
    if s.len() == 0 {
        assert(s.push(b)[0] == b);
        assert(s.push(b).drop_first() =~= Seq::<u8>::empty());
        assert(percent_encoded(s.push(b).drop_first()) == Seq::<u8>::empty());
        assert(percent_encoded(s.push(b)) =~= percent_encoded(s) + encoded_byte(b));
    } else {
        assert(s.push(b).drop_first() =~= s.drop_first().push(b));
        lemma_percent_encoded_push(s.drop_first(), b);
        assert(s.push(b)[0] == s[0]);
        assert(percent_encoded(s.push(b)) =~= percent_encoded(s) + encoded_byte(b));
    }
}

/// Every byte of a percent-encoded string is printable ASCII and is
/// neither `"` nor `&` nor `=` nor `%` unless it opens an escape.
pub proof fn lemma_percent_encoded_bytes(s: Seq<u8>)
    ensures
        forall|i: int|
            0 <= i < percent_encoded(s).len() ==> {
                let b = #[trigger] percent_encoded(s)[i];
                b < 128 && b != 34 && b != 38 && b != 61 && b != 32
            },
    decreases s.len(),
{
    if s.len() > 0 {
        lemma_percent_encoded_bytes(s.drop_first());
        let e0 = encoded_byte(s[0]);
        let rest = percent_encoded(s.drop_first());
        assert(percent_encoded(s) == e0 + rest);
        assert forall|i: int| 0 <= i < percent_encoded(s).len() implies {
            let b = #[trigger] percent_encoded(s)[i];
            b < 128 && b != 34 && b != 38 && b != 61 && b != 32
        } by {
            if i < e0.len() {
                assert(percent_encoded(s)[i] == e0[i]);
            } else {
                assert(percent_encoded(s)[i] == rest[i - e0.len()]);
            }
        }
    }
}

/// Decoding inverts encoding: every byte string comes back unchanged.
pub proof fn lemma_percent_round_trip(s: Seq<u8>)
    ensures
        percent_decoded(percent_encoded(s)) == Some(s),
    decreases s.len(),
{
    if s.len() == 0 {
        assert(percent_decoded(percent_encoded(s)) =~= Some(s));
    } else {
        let b = s[0];
        let e = percent_encoded(s);
        lemma_percent_round_trip(s.drop_first());
        if is_unreserved(b) {
            assert(e[0] == b);
            assert(e[0] != 37);
            assert(e.drop_first() =~= percent_encoded(s.drop_first()));
            assert(seq![b] + s.drop_first() =~= s);
        } else {
            assert(e[0] == 37);
            assert(e[1] == hex_upper(b / 16));
            assert(e[2] == hex_upper(b % 16));
            assert(is_hex_upper_digit(hex_upper(b / 16)));
            assert(is_hex_upper_digit(hex_upper(b % 16)));
            assert(hex_val(hex_upper(b / 16)) == b / 16);
            assert(hex_val(hex_upper(b % 16)) == b % 16);
            assert(hex_val(e[1]) * 16 + hex_val(e[2]) == b) by {
                assert(b / 16 * 16 + b % 16 == b) by (nonlinear_arith);
            };
            assert(e.skip(3) =~= percent_encoded(s.drop_first()));
            assert(seq![b] + s.drop_first() =~= s);
        }
    }
}

/// Two byte strings with the same percent-encoding are the same string.
pub proof fn lemma_percent_encoded_injective(a: Seq<u8>, b: Seq<u8>)
    requires
        percent_encoded(a) == percent_encoded(b),
    ensures
        a == b,
{
    lemma_percent_round_trip(a);
    lemma_percent_round_trip(b);
}

/// Whether a byte passes through percent-encoding unchanged.
pub fn is_unreserved_byte(b: u8) -> (r: bool)
    ensures
        r == is_unreserved(b),
{
    (65 <= b && b <= 90) || (97 <= b && b <= 122) || (48 <= b && b <= 57)
        || b == 45 || b == 46 || b == 95 || b == 126
}

/// The uppercase hex digit of a nibble.
fn hex_upper_byte(n: u8) -> (r: u8)
    requires
        n < 16,
    ensures
        r == hex_upper(n),
{
    if n < 10 {
        n + 48
    } else {
        n + (55)
    }
}

/// Percent-encode a byte string.
pub fn percent_encode_bytes(input: &Vec<u8>) -> (r: Vec<u8>)
    ensures
        r@ == percent_encoded(input@),
{
    let mut out: Vec<u8> = Vec::new();
    let mut i: usize = 0;
    while i < input.len()
        invariant
            i <= input@.len(),
            out@ == percent_encoded(input@.take(i as int)),
        decreases input@.len() - i,
    {
        let b = input[i];
        proof {
            assert(input@.take(i as int).push(b) =~= input@.take(i + 1 as int));
            lemma_percent_encoded_push(input@.take(i as int), b);
        }
        if is_unreserved_byte(b) {
            out.push(b);
            assert(out@ =~= percent_encoded(input@.take(i + 1 as int)));
        } else {
            out.push(37);
            out.push(hex_upper_byte(b / 16));
            out.push(hex_upper_byte(b % 16));
            assert(out@ =~= percent_encoded(input@.take(i + 1 as int)));
        }
        i = i + 1;
    }
    proof {
        assert(input@.take(input@.len() as int) =~= input@);
    }
    out
}

/// Percent-decode a byte string; `None` on a malformed escape.
pub fn percent_decode_bytes(input: &Vec<u8>) -> (r: Option<Vec<u8>>)
    ensures
        match r {
            Some(v) => percent_decoded(input@) == Some(v@),
            None => percent_decoded(input@) is None,
        },
{
    let mut out: Vec<u8> = Vec::new();
    let mut i: usize = 0;
    proof {
        assert(input@.skip(0) =~= input@);
    }
    while i < input.len()
        invariant
            i <= input@.len(),
            percent_decoded(input@) is Some <==> percent_decoded(input@.skip(i as int)) is Some,
            percent_decoded(input@) is Some ==> percent_decoded(input@).unwrap() == out@
                + percent_decoded(input@.skip(i as int)).unwrap(),
        decreases input@.len() - i,
    {
        let ghost pre = input@.skip(i as int);
        assert(pre[0] == input@[i as int]);
        let b = input[i];
        if b == 37 {
            if input.len() - i < 3 {
                assert(pre.len() < 3);
                assert(percent_decoded(pre) is None);
                return None;
            }
            let h = input[i + 1];
            let l = input[i + 2];
            assert(pre[1] == h && pre[2] == l);
            let h_ok = (48 <= h && h <= 57) || (65 <= h && h <= 70);
            let l_ok = (48 <= l && l <= 57) || (65 <= l && l <= 70);
            if !(h_ok && l_ok) {
                assert(percent_decoded(pre) is None);
                return None;
            }
            let hv = if h <= 57 { h - 48 } else { h - (55) };
            let lv = if l <= 57 { l - 48 } else { l - (55) };
            assert(hv == hex_val(h) && lv == hex_val(l));
            assert(hv < 16 && lv < 16);
            let ghost old_out = out@;
            out.push(hv * 16 + lv);
            proof {
                assert(pre.skip(3) =~= input@.skip(i + 3 as int));
                let next = percent_decoded(input@.skip(i + 3 as int));
                if next is Some {
                    assert(percent_decoded(pre).unwrap() == seq![(hv * 16 + lv) as u8]
                        + next.unwrap());
                    assert(old_out + (seq![(hv * 16 + lv) as u8] + next.unwrap()) =~= out@
                        + next.unwrap());
                }
            }
            i = i + 3;
        } else {
            let ghost old_out = out@;
            out.push(b);
            proof {
                assert(pre.drop_first() =~= input@.skip(i + 1 as int));
                let next = percent_decoded(input@.skip(i + 1 as int));
                if next is Some {
                    assert(percent_decoded(pre).unwrap() == seq![b] + next.unwrap());
                    assert(old_out + (seq![b] + next.unwrap()) =~= out@ + next.unwrap());
                }
            }
            i = i + 1;
        }
    }
    proof {
        assert(input@.skip(i as int) =~= Seq::<u8>::empty());
        assert(percent_decoded(Seq::<u8>::empty()) is Some);
        assert(out@ + Seq::<u8>::empty() =~= out@);
    }
    Some(out)
}

} // verus!

