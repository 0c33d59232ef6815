//! Reading a form-encoded token response.
//!
//! The provider answers the request-token POST with a body like
//! `oauth_token=x&oauth_token_secret=y&oauth_callback_confirmed=true`.
//! The web layer only needs the value fields, in order; a piece without
//! an `=` makes the body malformed.

use vstd::prelude::*;

verus! {

/// The pieces of a byte string split on a separator. The empty string
/// splits into one empty piece, as `str::split` does.
pub open spec fn split_bytes(s: Seq<u8>, sep: u8) -> Seq<Seq<u8>>
    decreases s.len(),
{
    if s.len() == 0 {
        seq![Seq::empty()]
    } else if s[0] == sep {
        seq![Seq::<u8>::empty()] + split_bytes(s.drop_first(), sep)
    } else {
        let rest = split_bytes(s.drop_first(), sep);
        seq![seq![s[0]] + rest[0]] + rest.drop_first()
    }
}

/// A split has at least one piece.
pub proof fn lemma_split_bytes_len(s: Seq<u8>, sep: u8)
    ensures
        split_bytes(s, sep).len() >= 1,
    decreases s.len(),
{
    if s.len() > 0 {
        lemma_split_bytes_len(s.drop_first(), sep);
    }
}

/// The byte strings of a list of byte vectors.
pub open spec fn vecs_view(s: Seq<Vec<u8>>) -> Seq<Seq<u8>> {
    s.map_values(|x: Vec<u8>| x@)
}

/// The pieces with the first one extended on the left.
pub open spec fn prepend_first(c: Seq<u8>, ss: Seq<Seq<u8>>) -> Seq<Seq<u8>>
    recommends
        ss.len() >= 1,
{
    seq![c + ss[0]] + ss.drop_first()
}

/// The value fields of a form-encoded body: for each `&`-separated
/// piece, the text between its first `=` and the next `=` or the end;
/// `None` if some piece has no `=` at all.
pub open spec fn token_values_spec(body: Seq<u8>) -> Option<Seq<Seq<u8>>> {
    let pieces = split_bytes(body, 38);
    if forall|i: int|
        0 <= i < pieces.len() ==> (#[trigger] split_bytes(pieces[i], 61)).len() >= 2 {
        Some(Seq::new(pieces.len(), |i: int| split_bytes(pieces[i], 61)[1]))
    } else {
        None
    }
}

/// Split a byte string on a separator.
pub fn split_on(s: &Vec<u8>, sep: u8) -> (r: Vec<Vec<u8>>)
    ensures
        vecs_view(r@) == split_bytes(s@, sep),
{
    let mut done: Vec<Vec<u8>> = Vec::new();
    let mut cur: Vec<u8> = Vec::new();
    let mut i: usize = 0;
    proof {
        assert(s@.skip(0) =~= s@);
        lemma_split_bytes_len(s@, sep);
        assert(vecs_view(done@) =~= Seq::<Seq<u8>>::empty());
        assert(vecs_view(done@) + prepend_first(cur@, split_bytes(s@, sep)) =~= split_bytes(
            s@,
            sep,
        ));
    }
    while i < s.len()
        invariant
            i <= s@.len(),
            split_bytes(s@, sep) == vecs_view(done@) + prepend_first(
                cur@,
                split_bytes(s@.skip(i as int), sep),
            ),
        decreases s@.len() - i,
    {
        let ghost pre = s@.skip(i as int);
        let ghost next = s@.skip(i + 1 as int);
        proof {
            assert(pre.drop_first() =~= next);
            lemma_split_bytes_len(next, sep);
        }
        assert(pre[0] == s@[i as int]);
        let b = s[i];
        if b == sep {
            let ghost old_done = done@;
            let ghost old_cur = cur@;
            done.push(cur);
            cur = Vec::new();
            proof {
                assert(split_bytes(pre, sep) == seq![Seq::<u8>::empty()] + split_bytes(next, sep));
                assert(vecs_view(done@) =~= vecs_view(old_done).push(old_cur));
                assert(old_cur + Seq::<u8>::empty() =~= old_cur);
                assert(prepend_first(old_cur, split_bytes(pre, sep)) =~= seq![old_cur]
                    + split_bytes(next, sep));
                assert(prepend_first(cur@, split_bytes(next, sep)) =~= split_bytes(next, sep));
                assert(vecs_view(done@) + prepend_first(cur@, split_bytes(next, sep))
                    =~= vecs_view(old_done) + (seq![old_cur] + split_bytes(next, sep)));
            }
        } else {
            let ghost old_cur = cur@;
            cur.push(b);
            proof {
                let rest = split_bytes(next, sep);
                assert(split_bytes(pre, sep) == seq![seq![pre[0]] + rest[0]] + rest.drop_first());
                assert(old_cur + (seq![pre[0]] + rest[0]) =~= cur@ + rest[0]);
                assert(prepend_first(old_cur, split_bytes(pre, sep)) =~= prepend_first(cur@, rest));
            }
        }
        i = i + 1;
    }
    proof {
        assert(s@.skip(i as int) =~= Seq::<u8>::empty());
        assert(split_bytes(s@.skip(i as int), sep) == seq![Seq::<u8>::empty()]);
    }
    let ghost old_done = done@;
    let ghost old_cur = cur@;
    done.push(cur);
    proof {
        assert(old_cur + Seq::<u8>::empty() =~= old_cur);
        assert(prepend_first(old_cur, seq![Seq::<u8>::empty()]) =~= seq![old_cur]);
        assert(vecs_view(done@) =~= vecs_view(old_done).push(old_cur));
        assert(vecs_view(done@) =~= vecs_view(old_done) + seq![old_cur]);
    }
    done
}

/// The value fields of a form-encoded body, or `None` when a piece has
/// no `=`.
pub fn token_values(body: &Vec<u8>) -> (r: Option<Vec<Vec<u8>>>)
    ensures
        match r {
            Some(v) => token_values_spec(body@) == Some(vecs_view(v@)),
            None => token_values_spec(body@) is None,
        },
{
    let pieces = split_on(body, 38);
    let ghost piece_views = split_bytes(body@, 38);
    let mut out: Vec<Vec<u8>> = Vec::new();
    let mut i: usize = 0;
    while i < pieces.len()
        invariant
            i <= pieces@.len(),
            vecs_view(pieces@) == piece_views,
            piece_views == split_bytes(body@, 38),
            forall|j: int|
                0 <= j < i ==> (#[trigger] split_bytes(piece_views[j], 61)).len() >= 2,
            vecs_view(out@) =~= Seq::new(i as nat, |j: int| split_bytes(piece_views[j], 61)[1]),
        decreases pieces@.len() - i,
    {
        assert(pieces@[i as int]@ == piece_views[i as int]);
        let mut fields = split_on(&pieces[i], 61);
        if fields.len() < 2 {
            proof {
                assert(split_bytes(piece_views[i as int], 61).len() < 2);
                assert(token_values_spec(body@) is None);
            }
            return None;
        }
        let ghost old_out = out@;
        let f = fields.remove(1);
        proof {
            assert(f@ == vecs_view(fields@.insert(1, f))[1]);
            assert(f@ == split_bytes(piece_views[i as int], 61)[1]);
        }
        out.push(f);
        proof {
            assert(vecs_view(out@) =~= vecs_view(old_out).push(f@));
            assert(vecs_view(out@) =~= Seq::new(
                (i + 1) as nat,
                |j: int| split_bytes(piece_views[j], 61)[1],
            ));
        }
        i = i + 1;
    }
    proof {
        assert(token_values_spec(body@) == Some(vecs_view(out@)));
    }
    Some(out)
}

} // verus!
