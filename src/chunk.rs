//! Splitting a string into pieces of a fixed number of characters.

use vstd::prelude::*;

verus! {

/// The pieces of `s` of `w` characters each, in order; the last one is
/// shorter when `w` does not divide the length of `s`.
pub open spec fn chunks(s: Seq<char>, w: nat) -> Seq<Seq<char>>
    decreases s.len(),
{
    if s.len() == 0 || w == 0 {
        seq![]
    } else if s.len() <= w {
        seq![s]
    } else {
        seq![s.take(w as int)] + chunks(s.skip(w as int), w)
    }
}

/// Joining the pieces gives back `s`; every piece holds between one and `w`
/// characters, and all but the last exactly `w`.
pub proof fn lemma_chunks_rejoin(s: Seq<char>, w: nat)
    requires
        w > 0,
    ensures
        chunks(s, w).flatten() == s,
        forall|i: int|
            0 <= i < chunks(s, w).len() ==> 0 < #[trigger] chunks(s, w)[i].len() <= w,
        forall|i: int|
            0 <= i < chunks(s, w).len() - 1 ==> #[trigger] chunks(s, w)[i].len() == w,
    decreases s.len(),
{
    let c = chunks(s, w);
    if s.len() == 0 {
    } else if s.len() <= w {
        assert(c.drop_first() =~= Seq::<Seq<char>>::empty());
        assert(c.drop_first().flatten() =~= Seq::<char>::empty());
        assert(c.flatten() =~= s);
    } else {
        lemma_chunks_rejoin(s.skip(w as int), w);
        assert(c.drop_first() =~= chunks(s.skip(w as int), w));
        assert(c.flatten() =~= s);
        assert forall|i: int| 0 < i < c.len() implies #[trigger] c[i] == chunks(
            s.skip(w as int),
            w,
        )[i - 1] by {}
    }
}

/// A text of `w * n` characters falls into `n` pieces of exactly `w`.
pub proof fn lemma_chunks_exact(s: Seq<char>, w: nat, n: nat)
    requires
        w > 0,
        s.len() == w * n,
    ensures
        chunks(s, w).len() == n,
        forall|i: int| 0 <= i < n ==> #[trigger] chunks(s, w)[i].len() == w,
    decreases n,
{
    if n == 0 {
        assert(s.len() == 0) by (nonlinear_arith)
            requires
                s.len() == w * n,
                n == 0,
        ;
    } else {
        assert(s.len() == w * (n - 1) + w) by (nonlinear_arith)
            requires
                s.len() == w * n,
                n > 0,
        ;
        if n == 1 {
            assert(s.len() == w) by (nonlinear_arith)
                requires
                    s.len() == w * n,
                    n == 1,
            ;
        } else {
            assert(w * (n - 1) > 0) by (nonlinear_arith)
                requires
                    w > 0,
                    n > 1,
            ;
            lemma_chunks_exact(s.skip(w as int), w, (n - 1) as nat);
            assert(chunks(s, w) == seq![s.take(w as int)] + chunks(s.skip(w as int), w));
            assert forall|i: int| 0 < i < n implies #[trigger] chunks(s, w)[i] == chunks(
                s.skip(w as int),
                w,
            )[i - 1] by {}
        }
    }
}

/// When every piece is full, the text is `w` times as long as the number of pieces.
pub proof fn lemma_chunks_full(s: Seq<char>, w: nat)
    requires
        w > 0,
        forall|i: int| 0 <= i < chunks(s, w).len() ==> #[trigger] chunks(s, w)[i].len() == w,
    ensures
        s.len() == w * chunks(s, w).len(),
    decreases s.len(),
{
    let c = chunks(s, w);
    if s.len() == 0 {
        assert(w * c.len() == 0) by (nonlinear_arith)
            requires
                c.len() == 0,
        ;
    } else if s.len() <= w {
        assert(c[0].len() == w);
        assert(w * c.len() == w) by (nonlinear_arith)
            requires
                c.len() == 1,
        ;
    } else {
        let rest = chunks(s.skip(w as int), w);
        assert forall|i: int| 0 <= i < rest.len() implies #[trigger] rest[i].len() == w by {
            assert(c[i + 1] == rest[i]);
        }
        lemma_chunks_full(s.skip(w as int), w);
        assert(s.len() == w * rest.len() + w);
        assert(c.len() == rest.len() + 1);
        assert(w * rest.len() + w == w * (rest.len() + 1)) by (nonlinear_arith);
    }
}

/// Splits `s` into consecutive pieces of `chunk_size` characters; the last
/// piece holds what remains and may be shorter.
pub fn split_ascii_string(s: &str, chunk_size: usize) -> (r: Vec<String>)
    requires
        chunk_size > 0,
    ensures
        r@.len() == chunks(s@, chunk_size as nat).len(),
        forall|i: int| 0 <= i < r@.len() ==> #[trigger] r@[i]@ == chunks(s@, chunk_size as nat)[i],
{
    let n = s.unicode_len();
    let ghost w = chunk_size as nat;
    let mut out: Vec<String> = Vec::new();
    let mut start: usize = 0;
    proof {
        assert(s@.skip(0) =~= s@);
    }
    while start < n
        invariant
            n == s@.len(),
            w == chunk_size as nat,
            chunk_size > 0,
            start <= n,
            out@.len() + chunks(s@.skip(start as int), w).len() == chunks(s@, w).len(),
            forall|i: int| 0 <= i < out@.len() ==> #[trigger] out@[i]@ == chunks(s@, w)[i],
            forall|i: int|
                0 <= i < chunks(s@.skip(start as int), w).len() ==> #[trigger] chunks(
                    s@.skip(start as int),
                    w,
                )[i] == chunks(s@, w)[out@.len() + i],
        decreases n - start,
    {
        let end: usize = if n - start > chunk_size {
            start + chunk_size
        } else {
            n
        };
        let piece = s.substring_char(start, end).to_owned();
        let ghost rest = s@.skip(start as int);
        proof {
            assert(piece@ == rest.take((end - start) as int));
            if end < n {
                assert(rest.skip(chunk_size as int) =~= s@.skip(end as int));
                assert(chunks(rest, w) == seq![rest.take(w as int)] + chunks(s@.skip(end as int), w));
            } else {
                assert(rest.take((end - start) as int) =~= rest);
                assert(s@.skip(end as int).len() == 0);
            }
            assert(chunks(rest, w)[0] == piece@);
        }
        out.push(piece);
        start = end;
        proof {
            assert forall|i: int|
                0 <= i < chunks(s@.skip(start as int), w).len() implies #[trigger] chunks(
                s@.skip(start as int),
                w,
            )[i] == chunks(s@, w)[out@.len() + i] by {
                if end < n {
                    assert(chunks(rest, w)[i + 1] == chunks(s@.skip(start as int), w)[i]);
                }
            }
        }
    }
    proof {
        assert(s@.skip(start as int).len() == 0);
    }
    out
}

} // verus!
