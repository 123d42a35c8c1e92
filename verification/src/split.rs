//! Splitting byte text on a separator, as the newline and comma splits
//! of the pipeline both do.

use vstd::prelude::*;

verus! {

/// The pieces of `s` between occurrences of `sep`, in order. Splitting
/// the empty text yields one empty piece, and a trailing separator
/// yields a trailing empty piece.
pub open spec fn split_on(s: Seq<u8>, sep: u8) -> Seq<Seq<u8>>
    decreases s.len(),
{
    if s.len() == 0 {
        seq![Seq::<u8>::empty()]
    } else if s[0] == sep {
        seq![Seq::<u8>::empty()] + split_on(s.skip(1), sep)
    } else {
        let rest = split_on(s.skip(1), sep);
        seq![seq![s[0]] + rest[0]] + rest.skip(1)
    }
}

pub proof fn lemma_split_on_nonempty(s: Seq<u8>, sep: u8)
    ensures
        split_on(s, sep).len() >= 1,
    decreases s.len(),
{
    if s.len() > 0 {
        lemma_split_on_nonempty(s.skip(1), sep);
    }
}

/// A partial first piece `cur` glued onto the split of the remaining text.
pub open spec fn glue(cur: Seq<u8>, parts: Seq<Seq<u8>>) -> Seq<Seq<u8>>
    recommends
        parts.len() >= 1,
{
    seq![cur + parts[0]] + parts.skip(1)
}

pub proof fn lemma_glue_glue(cur: Seq<u8>, d: Seq<u8>, parts: Seq<Seq<u8>>)
    requires
        parts.len() >= 1,
    ensures
        glue(cur, glue(d, parts)) == glue(cur + d, parts),
{
    assert(glue(d, parts).skip(1) =~~= parts.skip(1));
    assert(cur + (d + parts[0]) =~= (cur + d) + parts[0]);
    assert(glue(cur, glue(d, parts)) =~~= glue(cur + d, parts));
}

/// The views of a vector of byte vectors.
pub open spec fn views_of(r: Seq<Vec<u8>>) -> Seq<Seq<u8>> {
    r.map_values(|v: Vec<u8>| v@)
}

/// Splits `s` on `sep`, exactly as `split_on` describes.
pub fn split_byte(s: &Vec<u8>, sep: u8) -> (r: Vec<Vec<u8>>)
    ensures
        views_of(r@) == split_on(s@, sep),
{
    let n: usize = s.len();
    let mut done: Vec<Vec<u8>> = Vec::new();
    let mut cur: Vec<u8> = Vec::new();
    let mut i: usize = 0;
    proof {
        assert(s@.skip(0) =~= s@);
        assert(views_of(done@) =~~= Seq::<Seq<u8>>::empty());
    }
    while i < n
        invariant
            n == s@.len(),
            0 <= i <= n,
            split_on(s@, sep) == views_of(done@) + glue(cur@, split_on(s@.skip(i as int), sep)),
        decreases n - i,
    {
        let ghost tail = s@.skip(i as int);
        let ghost tail1 = s@.skip(i as int + 1);
        proof {
            assert(tail.len() == n - i);
            assert(tail[0] == s@[i as int]);
            assert(tail.skip(1) =~= tail1);
            lemma_split_on_nonempty(tail1, sep);
        }
        let c: u8 = s[i];
        if c == sep {
            proof {
                assert(split_on(tail, sep) == seq![Seq::<u8>::empty()] + split_on(tail1, sep));
                assert(glue(cur@, split_on(tail, sep)) =~~= seq![cur@] + split_on(tail1, sep));
                assert(glue(Seq::<u8>::empty(), split_on(tail1, sep)) =~~= split_on(tail1, sep));
            }
            done.push(cur);
            cur = Vec::new();
            proof {
                assert(views_of(done@) =~~= views_of(done@.drop_last()).push(done@.last()@));
                assert(split_on(s@, sep) =~~= views_of(done@) + glue(
                    cur@,
                    split_on(tail1, sep),
                ));
            }
        } else {
            proof {
                let rest = split_on(tail1, sep);
                assert(split_on(tail, sep) == seq![seq![tail[0]] + rest[0]] + rest.skip(1));
                assert(split_on(tail, sep) =~~= glue(seq![c], rest));
                lemma_glue_glue(cur@, seq![c], rest);
                assert(cur@ + seq![c] =~= cur@.push(c));
            }
            cur.push(c);
        }
        i = i + 1;
    }
    proof {
        assert(s@.skip(n as int) =~= Seq::<u8>::empty());
        assert(split_on(s@.skip(n as int), sep) == seq![Seq::<u8>::empty()]);
        assert(glue(cur@, seq![Seq::<u8>::empty()]) =~~= seq![cur@]);
    }
    done.push(cur);
    proof {
        assert(views_of(done@) =~~= views_of(done@.drop_last()).push(done@.last()@));
        assert(split_on(s@, sep) =~~= views_of(done@));
    }
    done
}

} // verus!
