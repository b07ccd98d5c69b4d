use vstd::prelude::*;
use vstd::slice::{slice_subrange, slice_to_vec};

verus! {

// Splitting byte text on a separator, and the facts about it that the
// delimited codec's round trip rests on.

/// The segments of `s` between occurrences of `sep`. Always at least one
/// segment; `n` separators give `n + 1` segments.
pub open spec fn split_on(s: Seq<u8>, sep: u8) -> Seq<Seq<u8>>
    decreases s.len(),
{
    if s.len() == 0 {
        seq![Seq::<u8>::empty()]
    } else if s[0] == sep {
        seq![Seq::<u8>::empty()] + split_on(s.drop_first(), sep)
    } else {
        let r = split_on(s.drop_first(), sep);
        seq![seq![s[0]] + r[0]] + r.drop_first()
    }
}

pub open spec fn no_sep(s: Seq<u8>, sep: u8) -> bool {
    forall|i: int| 0 <= i < s.len() ==> #[trigger] s[i] != sep
}

pub proof fn lemma_split_len(s: Seq<u8>, sep: u8)
    ensures
        split_on(s, sep).len() >= 1,
    decreases s.len(),
{
    if s.len() > 0 {
        lemma_split_len(s.drop_first(), sep);
    }
}

/// A separator-free text is a single segment.
pub proof fn lemma_split_nosep(s: Seq<u8>, sep: u8)
    requires
        no_sep(s, sep),
    ensures
        split_on(s, sep) == seq![s],
    decreases s.len(),
{
    if s.len() == 0 {
        assert(s =~= Seq::<u8>::empty());
        assert(split_on(s, sep) =~= seq![s]);
    } else {
        assert(no_sep(s.drop_first(), sep)) by {
            assert forall|i: int| 0 <= i < s.drop_first().len() implies
                #[trigger] s.drop_first()[i] != sep
            by {
                assert(s.drop_first()[i] == s[i + 1]);
            }
        }
        lemma_split_nosep(s.drop_first(), sep);
        assert(seq![s[0]] + s.drop_first() =~= s);
        assert(split_on(s, sep) =~= seq![s]);
    }
}

/// Peeling a separator-free segment and its separator off the front of a
/// text splits the rest independently.
pub proof fn lemma_split_prefix(p: Seq<u8>, sep: u8, rest: Seq<u8>)
    requires
        no_sep(p, sep),
    ensures
        split_on(p + seq![sep] + rest, sep) == seq![p] + split_on(rest, sep),
    decreases p.len(),
{
    let s = p + seq![sep] + rest;
    if p.len() == 0 {
        assert(p =~= Seq::<u8>::empty());
        assert(s =~= seq![sep] + rest);
        assert(s[0] == sep);
        assert(s.drop_first() =~= rest);
        assert(split_on(s, sep) =~= seq![p] + split_on(rest, sep));
    } else {
        assert(s[0] == p[0]);
        assert(s[0] != sep);
        assert(no_sep(p.drop_first(), sep)) by {
            assert forall|i: int| 0 <= i < p.drop_first().len() implies
                #[trigger] p.drop_first()[i] != sep
            by {
                assert(p.drop_first()[i] == p[i + 1]);
            }
        }
        lemma_split_prefix(p.drop_first(), sep, rest);
        assert(s.drop_first() =~= p.drop_first() + seq![sep] + rest);
        let r = split_on(s.drop_first(), sep);
        assert(r == seq![p.drop_first()] + split_on(rest, sep));
        assert(r[0] == p.drop_first());
        assert(seq![s[0]] + r[0] =~= p);
        assert(r.drop_first() =~= split_on(rest, sep));
        assert(split_on(s, sep) =~= seq![p] + split_on(rest, sep));
    }
}

pub open spec fn views_of(v: Seq<Vec<u8>>) -> Seq<Seq<u8>> {
    v.map_values(|x: Vec<u8>| x@)
}

/// Splits a byte slice at every occurrence of `sep`, exactly as `split_on`
/// describes.
pub fn split_bytes(s: &[u8], sep: u8) -> (r: Vec<Vec<u8>>)
    ensures
        views_of(r@) == split_on(s@, sep),
{
    let n = s.len();
    let mut out: Vec<Vec<u8>> = Vec::new();
    let mut pos: usize = 0;
    proof {
        assert(s@.skip(0) =~= s@);
        assert(views_of(Seq::<Vec<u8>>::empty()) =~= Seq::<Seq<u8>>::empty());
        assert(split_on(s@, sep) =~= views_of(Seq::<Vec<u8>>::empty()) + split_on(s@, sep));
    }
    loop
        invariant
            0 <= pos <= n,
            n == s@.len(),
            split_on(s@, sep) == views_of(out@) + split_on(s@.skip(pos as int), sep),
        decreases n - pos,
    {
        // Scan the next separator-free segment.
        let mut j: usize = pos;
        while j < n && s[j] != sep
            invariant
                pos <= j <= n,
                n == s@.len(),
                no_sep(s@.subrange(pos as int, j as int), sep),
            decreases n - j,
        {
            proof {
                assert forall|i: int| 0 <= i < j + 1 - pos implies
                    #[trigger] s@.subrange(pos as int, j + 1)[i] != sep
                by {
                    if i < j - pos {
                        assert(s@.subrange(pos as int, j as int)[i] != sep);
                        assert(s@.subrange(pos as int, j + 1)[i]
                            == s@.subrange(pos as int, j as int)[i]);
                    } else {
                        assert(s@.subrange(pos as int, j + 1)[i] == s@[j as int]);
                    }
                }
            }
            j = j + 1;
        }
        let seg: Vec<u8> = slice_to_vec(slice_subrange(s, pos, j));
        proof {
            assert(seg@ == s@.subrange(pos as int, j as int));
        }
        if j == n {
            // Last segment: the tail is separator-free.
            proof {
                assert(s@.skip(pos as int) =~= s@.subrange(pos as int, j as int));
                lemma_split_nosep(s@.skip(pos as int), sep);
                assert(views_of(out@.push(seg)) =~= views_of(out@).push(seg@));
                assert(split_on(s@, sep) =~= views_of(out@.push(seg)));
            }
            out.push(seg);
            return out;
        }
        proof {
            assert(s@[j as int] == sep);
            assert(s@.skip(pos as int) =~= s@.subrange(pos as int, j as int) + seq![sep]
                + s@.skip(j + 1));
            lemma_split_prefix(s@.subrange(pos as int, j as int), sep, s@.skip(j + 1));
            assert(views_of(out@.push(seg)) =~= views_of(out@).push(seg@));
            assert(views_of(out@) + split_on(s@.skip(pos as int), sep)
                =~= views_of(out@.push(seg)) + split_on(s@.skip(j + 1), sep));
        }
        out.push(seg);
        pos = j + 1;
    }
}

/// Byte-for-byte equality of two slices.
pub fn bytes_eq(a: &[u8], b: &[u8]) -> (r: bool)
    ensures
        r == (a@ == b@),
{
    if a.len() != b.len() {
        proof {
            assert(a@ != b@);
        }
        return false;
    }
    let n = a.len();
    let mut i: usize = 0;
    while i < n
        invariant
            0 <= i <= n,
            n == a@.len(),
            n == b@.len(),
            forall|k: int| 0 <= k < i ==> a@[k] == #[trigger] b@[k],
        decreases n - i,
    {
        if a[i] != b[i] {
            return false;
        }
        i = i + 1;
    }
    proof {
        assert(a@ =~= b@);
    }
    true
}

} // verus!
