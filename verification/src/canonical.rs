//! The canonical OAuth parameter string.
//!
//! Each (key, value) pair is percent-encoded, the pairs are sorted by
//! encoded key (ties broken by encoded value) in byte-wise lexicographic
//! order, each pair is joined as `key=value`, and the pairs are joined
//! with `&`. The sort makes the string independent of the order in which
//! the caller supplied the pairs.

use vstd::prelude::*;
use vstd::relations::{sorted_by, total_ordering};
use vstd::seq_lib::{lemma_sorted_unique, to_multiset_build, to_multiset_insert};

use crate::encoding::{percent_encoded, percent_encode_bytes};

verus! {

/// Byte-wise lexicographic "less than or equal" on byte strings.
pub open spec fn lex_le(a: Seq<u8>, b: Seq<u8>) -> bool
    decreases a.len(),
{
    if a.len() == 0 {
        true
    } else if b.len() == 0 {
        false
    } else if a[0] < b[0] {
        true
    } else if a[0] > b[0] {
        false
    } else {
        lex_le(a.drop_first(), b.drop_first())
    }
}

/// Ordering on encoded pairs: by key, ties broken by value.
pub open spec fn pair_le(x: (Seq<u8>, Seq<u8>), y: (Seq<u8>, Seq<u8>)) -> bool {
    if x.0 == y.0 {
        lex_le(x.1, y.1)
    } else {
        lex_le(x.0, y.0)
    }
}

/// The pair ordering as a first-class relation, for the sorting lemmas.
pub open spec fn pair_le_fn() -> spec_fn((Seq<u8>, Seq<u8>), (Seq<u8>, Seq<u8>)) -> bool {
    |x: (Seq<u8>, Seq<u8>), y: (Seq<u8>, Seq<u8>)| pair_le(x, y)
}

pub proof fn lemma_lex_le_refl(a: Seq<u8>)
    ensures
        lex_le(a, a),
    decreases a.len(),
{
    if a.len() > 0 {
        lemma_lex_le_refl(a.drop_first());
    }
}

pub proof fn lemma_lex_le_total(a: Seq<u8>, b: Seq<u8>)
    ensures
        lex_le(a, b) || lex_le(b, a),
    decreases a.len(),
{
    if a.len() > 0 && b.len() > 0 && a[0] == b[0] {
        lemma_lex_le_total(a.drop_first(), b.drop_first());
    }
}

pub proof fn lemma_lex_le_antisymmetric(a: Seq<u8>, b: Seq<u8>)
    requires
        lex_le(a, b),
        lex_le(b, a),
    ensures
        a == b,
    decreases a.len(),
{
    if a.len() == 0 {
        assert(b.len() == 0);
        assert(a =~= b);
    } else {
        assert(b.len() > 0);
        assert(a[0] == b[0]);
        lemma_lex_le_antisymmetric(a.drop_first(), b.drop_first());
        assert(a.len() == b.len());
        assert forall|i: int| 0 <= i < a.len() implies a[i] == b[i] by {
            if i > 0 {
                assert(a[i] == a.drop_first()[i - 1]);
                assert(b[i] == b.drop_first()[i - 1]);
            }
        }
        assert(a =~= b);
    }
}

pub proof fn lemma_lex_le_transitive(a: Seq<u8>, b: Seq<u8>, c: Seq<u8>)
    requires
        lex_le(a, b),
        lex_le(b, c),
    ensures
        lex_le(a, c),
    decreases a.len(),
{
    if a.len() > 0 {
        assert(b.len() > 0);
        assert(c.len() > 0);
        if a[0] == b[0] && b[0] == c[0] {
            lemma_lex_le_transitive(a.drop_first(), b.drop_first(), c.drop_first());
        }
    }
}

/// The pair ordering is a total order, so a sorted arrangement of any
/// multiset of pairs is unique.
pub proof fn lemma_pair_le_total_ordering()
    ensures
        total_ordering(pair_le_fn()),
{
    let r = pair_le_fn();
    assert forall|x: (Seq<u8>, Seq<u8>)| #[trigger] r(x, x) by {
        lemma_lex_le_refl(x.1);
    }
    assert forall|x: (Seq<u8>, Seq<u8>), y: (Seq<u8>, Seq<u8>)| #[trigger] r(x, y) && #[trigger] r(
        y,
        x,
    ) implies x == y by {
        if x.0 == y.0 {
            lemma_lex_le_antisymmetric(x.1, y.1);
        } else {
            lemma_lex_le_antisymmetric(x.0, y.0);
        }
    }
    assert forall|x: (Seq<u8>, Seq<u8>), y: (Seq<u8>, Seq<u8>), z: (Seq<u8>, Seq<u8>)|
        #[trigger] r(x, y) && #[trigger] r(y, z) implies r(x, z) by {
        if x.0 == y.0 && y.0 == z.0 {
            lemma_lex_le_transitive(x.1, y.1, z.1);
        } else if x.0 == y.0 {
            assert(lex_le(y.0, z.0));
            assert(lex_le(x.0, z.0));
        } else if y.0 == z.0 {
            assert(lex_le(x.0, y.0));
        } else {
            lemma_lex_le_transitive(x.0, y.0, z.0);
            if x.0 == z.0 {
                lemma_lex_le_antisymmetric(x.0, y.0);
            }
        }
    }
    assert forall|x: (Seq<u8>, Seq<u8>), y: (Seq<u8>, Seq<u8>)| #[trigger] r(x, y) || #[trigger] r(
        y,
        x,
    ) by {
        if x.0 == y.0 {
            lemma_lex_le_total(x.1, y.1);
        } else {
            lemma_lex_le_total(x.0, y.0);
        }
    }
}

/// `key=value` for one encoded pair.
pub open spec fn pair_joined(p: (Seq<u8>, Seq<u8>)) -> Seq<u8> {
    p.0 + seq![61u8] + p.1
}

/// The pairs joined as `k=v`, separated by `&`.
pub open spec fn amp_joined(ps: Seq<(Seq<u8>, Seq<u8>)>) -> Seq<u8>
    decreases ps.len(),
{
    if ps.len() == 0 {
        Seq::empty()
    } else if ps.len() == 1 {
        pair_joined(ps[0])
    } else {
        pair_joined(ps[0]) + seq![38u8] + amp_joined(ps.drop_first())
    }
}

/// Both components of each pair, percent-encoded.
pub open spec fn encoded_pairs(ps: Seq<(Seq<u8>, Seq<u8>)>) -> Seq<(Seq<u8>, Seq<u8>)> {
    ps.map_values(|p: (Seq<u8>, Seq<u8>)| (percent_encoded(p.0), percent_encoded(p.1)))
}

/// The canonical parameter string of a parameter list: percent-encode
/// every key and value, sort the encoded pairs, join them.
pub open spec fn canonical_params(ps: Seq<(Seq<u8>, Seq<u8>)>) -> Seq<u8> {
    amp_joined(encoded_pairs(ps).sort_by(pair_le_fn()))
}

/// The byte strings of a list of executable pairs.
pub open spec fn pairs_view(s: Seq<(Vec<u8>, Vec<u8>)>) -> Seq<(Seq<u8>, Seq<u8>)> {
    s.map_values(|p: (Vec<u8>, Vec<u8>)| (p.0@, p.1@))
}

proof fn lemma_amp_joined_push(ps: Seq<(Seq<u8>, Seq<u8>)>, p: (Seq<u8>, Seq<u8>))
    ensures
        amp_joined(ps.push(p)) == if ps.len() == 0 {
            pair_joined(p)
        } else {
            amp_joined(ps) + seq![38u8] + amp_joined(seq![p])
        },
    decreases ps.len(),
{
    assert(seq![p].len() == 1);
    assert(amp_joined(seq![p]) == pair_joined(p));
    if ps.len() == 0 {
        assert(ps.push(p) =~= seq![p]);
    } else if ps.len() == 1 {
        assert(ps.push(p).len() == 2);
        assert(ps.push(p)[0] == ps[0]);
        assert(ps.push(p).drop_first() =~= seq![p]);
    } else {
        assert(ps.push(p).drop_first() =~= ps.drop_first().push(p));
        lemma_amp_joined_push(ps.drop_first(), p);
        assert(ps.push(p)[0] == ps[0]);
        assert(pair_joined(ps[0]) + seq![38u8] + (amp_joined(ps.drop_first()) + seq![38u8]
            + amp_joined(seq![p])) =~= (pair_joined(ps[0]) + seq![38u8] + amp_joined(
            ps.drop_first(),
        )) + seq![38u8] + amp_joined(seq![p]));
    }
}

proof fn lemma_sorted_insert(s: Seq<(Seq<u8>, Seq<u8>)>, j: int, x: (Seq<u8>, Seq<u8>))
    requires
        sorted_by(s, pair_le_fn()),
        0 <= j <= s.len(),
        forall|k: int| 0 <= k < j ==> pair_le(#[trigger] s[k], x),
        j < s.len() ==> !pair_le(s[j], x),
    ensures
        sorted_by(s.insert(j, x), pair_le_fn()),
{
    lemma_pair_le_total_ordering();
    let r = pair_le_fn();
    let t = s.insert(j, x);
    assert forall|i1: int, i2: int| 0 <= i1 < i2 < t.len() implies #[trigger] r(t[i1], t[i2]) by {
        if i1 < j {
            assert(t[i1] == s[i1]);
        } else if i1 == j {
            assert(t[i1] == x);
        } else {
            assert(t[i1] == s[i1 - 1]);
        }
        if i2 < j {
            assert(t[i2] == s[i2]);
        } else if i2 == j {
            assert(t[i2] == x);
        } else {
            assert(t[i2] == s[i2 - 1]);
        }
        if i2 < j {
            assert(r(s[i1], s[i2]));
        } else if i2 == j {
            assert(pair_le(s[i1], x));
        } else if i1 == j {
            // x goes before s[j..]: !pair_le(s[j], x) gives pair_le(x, s[j])
            assert(r(s[j], x) == pair_le(s[j], x));
            assert(r(x, s[j]) || r(s[j], x));
            assert(r(x, s[j]));
            if i2 - 1 > j {
                assert(r(s[j], s[i2 - 1]));
            }
        } else if i1 < j {
            if i1 < i2 - 1 {
                assert(r(s[i1], s[i2 - 1]));
            } else {
                assert(pair_le(s[i1], x));
                assert(r(s[j], x) == pair_le(s[j], x));
                assert(r(x, s[j]) || r(s[j], x));
                assert(r(x, s[j]));
            }
        } else {
            assert(r(s[i1 - 1], s[i2 - 1]));
        }
    }
}

/// Copy the bytes of `src` onto the end of `out`.
/// (Shared by the modules that assemble byte strings.)
pub fn push_all(out: &mut Vec<u8>, src: &Vec<u8>)
    ensures
        final(out)@ == old(out)@ + src@,
{
    let mut j: usize = 0;
    while j < src.len()
        invariant
            j <= src@.len(),
            out@ == old(out)@ + src@.take(j as int),
        decreases src@.len() - j,
    {
        out.push(src[j]);
        proof {
            assert(src@.take(j + 1 as int) =~= src@.take(j as int).push(src@[j as int]));
            assert(old(out)@ + src@.take(j + 1 as int) =~= (old(out)@ + src@.take(j as int)).push(
                src@[j as int],
            ));
        }
        j = j + 1;
    }
    proof {
        assert(src@.take(src@.len() as int) =~= src@);
    }
}

/// Whether one encoded pair sorts at or before another.
fn pair_le_bytes(x: &(Vec<u8>, Vec<u8>), y: &(Vec<u8>, Vec<u8>)) -> (r: bool)
    ensures
        r == pair_le((x.0@, x.1@), (y.0@, y.1@)),
{
    let kxy = bytes_le(&x.0, &y.0);
    let kyx = bytes_le(&y.0, &x.0);
    if kxy && kyx {
        proof {
            lemma_lex_le_antisymmetric(x.0@, y.0@);
        }
        bytes_le(&x.1, &y.1)
    } else {
        proof {
            if x.0@ == y.0@ {
                lemma_lex_le_refl(x.0@);
            }
        }
        kxy
    }
}

/// Whether `a` is at or before `b` in byte-wise lexicographic order.
pub fn bytes_le(a: &Vec<u8>, b: &Vec<u8>) -> (r: bool)
    ensures
        r == lex_le(a@, b@),
{
    let mut i: usize = 0;
    proof {
        assert(a@.skip(0) =~= a@);
        assert(b@.skip(0) =~= b@);
    }
    while i < a.len() && i < b.len()
        invariant
            i <= a@.len(),
            i <= b@.len(),
            lex_le(a@, b@) == lex_le(a@.skip(i as int), b@.skip(i as int)),
        decreases a@.len() - i,
    {
        let x = a[i];
        let y = b[i];
        assert(a@.skip(i as int)[0] == x);
        assert(b@.skip(i as int)[0] == y);
        if x < y {
            return true;
        }
        if x > y {
            return false;
        }
        proof {
            assert(a@.skip(i as int).drop_first() =~= a@.skip(i + 1 as int));
            assert(b@.skip(i as int).drop_first() =~= b@.skip(i + 1 as int));
        }
        i = i + 1;
    }
    if i >= a.len() {
        assert(a@.skip(i as int).len() == 0);
        true
    } else {
        assert(a@.skip(i as int).len() > 0);
        assert(b@.skip(i as int).len() == 0);
        false
    }
}

/// Build the canonical parameter string of a parameter list.
pub fn build_canonical_params(params: &Vec<(Vec<u8>, Vec<u8>)>) -> (r: Vec<u8>)
    ensures
        r@ == canonical_params(pairs_view(params@)),
{
    broadcast use to_multiset_build, to_multiset_insert;

    let ghost all = encoded_pairs(pairs_view(params@));
    // Percent-encode every pair and insert it at its sorted position.
    let mut sorted_pairs: Vec<(Vec<u8>, Vec<u8>)> = Vec::new();
    let mut i: usize = 0;
    proof {
        assert(pairs_view(sorted_pairs@) =~= encoded_pairs(pairs_view(params@.take(0))));
    }
    while i < params.len()
        invariant
            i <= params@.len(),
            sorted_by(pairs_view(sorted_pairs@), pair_le_fn()),
            pairs_view(sorted_pairs@).to_multiset() == encoded_pairs(
                pairs_view(params@.take(i as int)),
            ).to_multiset(),
        decreases params@.len() - i,
    {
        let key_enc = percent_encode_bytes(&params[i].0);
        let val_enc = percent_encode_bytes(&params[i].1);
        let x = (key_enc, val_enc);
        let ghost xv = (x.0@, x.1@);
        let mut j: usize = 0;
        loop
            invariant
                xv == (x.0@, x.1@),
                j <= sorted_pairs@.len(),
                forall|k: int| 0 <= k < j ==> pair_le(#[trigger] pairs_view(sorted_pairs@)[k], xv),
            ensures
                j <= sorted_pairs@.len(),
                forall|k: int| 0 <= k < j ==> pair_le(#[trigger] pairs_view(sorted_pairs@)[k], xv),
                j < sorted_pairs@.len() ==> !pair_le(pairs_view(sorted_pairs@)[j as int], xv),
            decreases sorted_pairs@.len() - j,
        {
            if j >= sorted_pairs.len() {
                break;
            }
            let le = pair_le_bytes(&sorted_pairs[j], &x);
            assert(pairs_view(sorted_pairs@)[j as int] == (
                sorted_pairs@[j as int].0@,
                sorted_pairs@[j as int].1@,
            ));
            if !le {
                break;
            }
            j = j + 1;
        }
        let ghost before = pairs_view(sorted_pairs@);
        proof {
            lemma_sorted_insert(before, j as int, xv);
        }
        sorted_pairs.insert(j, x);
        proof {
            let ghost prev_enc = encoded_pairs(pairs_view(params@.take(i as int)));
            assert(pairs_view(sorted_pairs@) =~= before.insert(j as int, xv));
            assert(pairs_view(params@.take(i + 1 as int)) =~= pairs_view(
                params@.take(i as int),
            ).push((params@[i as int].0@, params@[i as int].1@)));
            assert(encoded_pairs(pairs_view(params@.take(i + 1 as int))) =~= prev_enc.push(xv));
            to_multiset_insert(before, j as int, xv);
            to_multiset_build(prev_enc, xv);
            assert(pairs_view(sorted_pairs@).to_multiset() == before.to_multiset().insert(xv));
            assert(encoded_pairs(pairs_view(params@.take(i + 1 as int))).to_multiset()
                == prev_enc.to_multiset().insert(xv));
        }
        i = i + 1;
    }
    proof {
        assert(params@.take(params@.len() as int) =~= params@);
        lemma_pair_le_total_ordering();
        all.lemma_sort_by_ensures(pair_le_fn());
        lemma_sorted_unique(pairs_view(sorted_pairs@), all.sort_by(pair_le_fn()), pair_le_fn());
        assert(pairs_view(sorted_pairs@) == all.sort_by(pair_le_fn()));
    }
    // Join the sorted pairs as k=v with & between them.
    let ghost sorted_view = pairs_view(sorted_pairs@);
    let mut out: Vec<u8> = Vec::new();
    let mut i: usize = 0;
    proof {
        assert(sorted_view.take(0) =~= Seq::<(Seq<u8>, Seq<u8>)>::empty());
        assert(out@ =~= amp_joined(sorted_view.take(0)));
    }
    while i < sorted_pairs.len()
        invariant
            i <= sorted_pairs@.len(),
            sorted_view == pairs_view(sorted_pairs@),
            out@ == amp_joined(sorted_view.take(i as int)),
        decreases sorted_pairs@.len() - i,
    {
        let ghost pv = sorted_view[i as int];
        let ghost out_start = out@;
        if i > 0 {
            out.push(38u8);
        }
        push_all(&mut out, &sorted_pairs[i].0);
        out.push(61u8);
        push_all(&mut out, &sorted_pairs[i].1);
        proof {
            assert(sorted_view.take(i + 1 as int) =~= sorted_view.take(i as int).push(pv));
            lemma_amp_joined_push(sorted_view.take(i as int), pv);
            assert(amp_joined(seq![pv]) == pair_joined(pv));
            if i == 0 {
                assert(out@ =~= pair_joined(pv));
            } else {
                assert(out@ =~= amp_joined(sorted_view.take(i as int)) + seq![38u8] + pair_joined(
                    pv,
                ));
            }
        }
        i = i + 1;
    }
    proof {
        assert(sorted_view.take(sorted_view.len() as int) =~= sorted_view);
    }
    out
}

/// The canonical parameter string does not depend on the order in which
/// the pairs were supplied: two parameter lists whose encoded pairs form
/// the same multiset canonicalize to the same string.
pub proof fn lemma_canonical_params_order_independent(
    ps1: Seq<(Seq<u8>, Seq<u8>)>,
    ps2: Seq<(Seq<u8>, Seq<u8>)>,
)
    requires
        encoded_pairs(ps1).to_multiset() == encoded_pairs(ps2).to_multiset(),
    ensures
        canonical_params(ps1) == canonical_params(ps2),
{
    lemma_pair_le_total_ordering();
    encoded_pairs(ps1).lemma_sort_by_ensures(pair_le_fn());
    encoded_pairs(ps2).lemma_sort_by_ensures(pair_le_fn());
    lemma_sorted_unique(
        encoded_pairs(ps1).sort_by(pair_le_fn()),
        encoded_pairs(ps2).sort_by(pair_le_fn()),
        pair_le_fn(),
    );
}

} // verus!
