//! Partitioning of the symbol universe into the chunks that one cycle
//! dispatches, one fetch/compute pipeline per chunk.
use rayon::iter::ParallelIterator;
use rayon::slice::ParallelSlice;
use vstd::prelude::*;

verus! {

/// Number of chunks of at most `size` elements that cover `n` elements.
pub open spec fn chunk_count(n: nat, size: nat) -> nat {
    if size == 0 {
        0
    } else {
        ((n + size - 1) as nat / size) as nat
    }
}

/// The consecutive, non-overlapping chunks of `s`: every chunk holds exactly
/// `size` elements but the last, which holds the rest.
pub open spec fn chunks_of<T>(s: Seq<T>, size: nat) -> Seq<Seq<T>>
    decreases s.len(),
{
    if s.len() == 0 || size == 0 {
        seq![]
    } else if s.len() <= size {
        seq![s]
    } else {
        seq![s.take(size as int)] + chunks_of(s.skip(size as int), size)
    }
}

/// All the elements of a sequence of sequences, in order.
pub open spec fn flatten<T>(ss: Seq<Seq<T>>) -> Seq<T>
    decreases ss.len(),
{
    if ss.len() == 0 {
        seq![]
    } else {
        ss[0] + flatten(ss.skip(1))
    }
}

/// The views of a sequence of vectors.
pub open spec fn vec_views<T>(vs: Seq<Vec<T>>) -> Seq<Seq<T>> {
    vs.map_values(|v: Vec<T>| v@)
}

/// The views of a sequence of slices.
pub open spec fn slice_views<T>(vs: Seq<&[T]>) -> Seq<Seq<T>> {
    vs.map_values(|v: &[T]| v@)
}

pub proof fn lemma_flatten_push<T>(ss: Seq<Seq<T>>, s: Seq<T>)
    ensures
        flatten(ss.push(s)) == flatten(ss) + s,
    decreases ss.len(),
{
    if ss.len() == 0 {
        assert(ss.push(s).skip(1) =~= Seq::<Seq<T>>::empty());
        assert(flatten(Seq::<Seq<T>>::empty()) == Seq::<T>::empty());
        assert(flatten(ss.push(s)) =~= s);
    } else {
        assert(ss.push(s).skip(1) =~= ss.skip(1).push(s));
        lemma_flatten_push(ss.skip(1), s);
        assert(flatten(ss.push(s)) =~= flatten(ss) + s);
    }
}

pub proof fn lemma_flatten_append<T>(a: Seq<Seq<T>>, b: Seq<Seq<T>>)
    ensures
        flatten(a + b) == flatten(a) + flatten(b),
    decreases a.len(),
{
    if a.len() == 0 {
        assert(a + b =~= b);
        assert(flatten(a) + flatten(b) =~= flatten(b));
    } else {
        assert((a + b).skip(1) =~= a.skip(1) + b);
        lemma_flatten_append(a.skip(1), b);
        assert(flatten(a + b) =~= flatten(a) + flatten(b));
    }
}

/// Putting the chunks back together gives the whole sequence, and every
/// chunk is non-empty and holds at most `size` elements.
pub proof fn lemma_chunks_cover<T>(s: Seq<T>, size: nat)
    requires
        size > 0,
    ensures
        flatten(chunks_of(s, size)) == s,
        chunks_of(s, size).len() == chunk_count(s.len(), size),
        forall|i: int|
            0 <= i < chunks_of(s, size).len() ==> 0 < #[trigger] chunks_of(s, size)[i].len()
                <= size,
    decreases s.len(),
{
    if s.len() == 0 {
        assert(chunk_count(0, size) == 0) by (nonlinear_arith)
            requires
                size > 0,
        ;
    } else if s.len() <= size {
        let c = chunks_of(s, size);
        assert(c.skip(1) =~= Seq::<Seq<T>>::empty());
        assert(flatten(Seq::<Seq<T>>::empty()) == Seq::<T>::empty());
        assert(flatten(c) =~= s);
        assert(chunk_count(s.len(), size) == 1) by (nonlinear_arith)
            requires
                size > 0,
                0 < s.len() <= size,
        ;
    } else {
        let rest = s.skip(size as int);
        lemma_chunks_cover(rest, size);
        let c = chunks_of(s, size);
        assert(c.skip(1) =~= chunks_of(rest, size));
        assert(flatten(c) =~= s);
        let n = s.len();
        assert(chunk_count(n, size) == chunk_count((n - size) as nat, size) + 1) by {
            assert(((n + size - 1) as nat / size) == ((n - size + size - 1) as nat / size) + 1)
                by (nonlinear_arith)
                requires
                    size > 0,
                    n > size,
            ;
        }
        assert forall|i: int| 0 <= i < c.len() implies 0 < #[trigger] c[i].len() <= size by {
            if i > 0 {
                assert(c[i] == chunks_of(rest, size)[i - 1]);
            }
        }
    }
}

/// Executable form of `chunk_count`.
pub fn expected_chunks(n: usize, size: usize) -> (r: usize)
    ensures
        r == chunk_count(n as nat, size as nat),
{
    if size == 0 {
        0
    } else {
        let q = n / size;
        let r = n % size;
        proof {
            assert(chunk_count(n as nat, size as nat) == q + if r == 0 { 0int } else { 1 })
                by (nonlinear_arith)
                requires
                    size > 0,
                    q == n / size,
                    r == n % size,
            ;
            assert(r != 0 ==> q < n) by (nonlinear_arith)
                requires
                    size > 0,
                    q == n / size,
                    r == n % size,
            ;
        }
        if r == 0 {
            q
        } else {
            q + 1
        }
    }
}

fn copy_range(s: &[String], from: usize, to: usize) -> (r: Vec<String>)
    requires
        from <= to <= s@.len(),
    ensures
        r@ == s@.subrange(from as int, to as int),
{
    let mut r: Vec<String> = Vec::with_capacity(to - from);
    let mut i: usize = from;
    while i < to
        invariant
            from <= i <= to <= s@.len(),
            r@ == s@.subrange(from as int, i as int),
        decreases to - i,
    {
        r.push(s[i].clone());
        i = i + 1;
        assert(r@ =~= s@.subrange(from as int, i as int));
    }
    r
}

proof fn lemma_chunks_step<T>(s: Seq<T>, start: nat, size: nat)
    requires
        size > 0,
        start < s.len(),
    ensures
        chunks_of(s.skip(start as int), size) == seq![
            s.subrange(start as int, if start + size < s.len() { start + size } else { s.len() } as int),
        ] + chunks_of(
            s.skip(if start + size < s.len() { start + size } else { s.len() } as int),
            size,
        ),
{
    let t = s.skip(start as int);
    if t.len() <= size {
        assert(t =~= s.subrange(start as int, s.len() as int));
        assert(s.skip(s.len() as int) =~= seq![]);
        assert(chunks_of(s.skip(s.len() as int), size) =~= seq![]);
        assert(chunks_of(t, size) =~= seq![t]);
    } else {
        assert(t.take(size as int) =~= s.subrange(start as int, (start + size) as int));
        assert(t.skip(size as int) =~= s.skip((start + size) as int));
    }
}

/// Splits `symbols` into consecutive chunks of at most `size` symbols, in
/// order.
pub fn chunk_symbols(symbols: &[String], size: usize) -> (r: Vec<Vec<String>>)
    requires
        size > 0,
    ensures
        vec_views(r@) == chunks_of(symbols@, size as nat),
{
    let n = symbols.len();
    let mut out: Vec<Vec<String>> = Vec::new();
    let mut start: usize = 0;
    proof {
        assert(symbols@.skip(0) =~= symbols@);
    }
    while start < n
        invariant
            n == symbols@.len(),
            size > 0,
            start <= n,
            vec_views(out@) + chunks_of(symbols@.skip(start as int), size as nat) == chunks_of(
                symbols@,
                size as nat,
            ),
        decreases n - start,
    {
        let end: usize = if n - start > size {
            start + size
        } else {
            n
        };
        let chunk = copy_range(symbols, start, end);
        proof {
            lemma_chunks_step(symbols@, start as nat, size as nat);
        }
        let ghost before = vec_views(out@);
        let ghost piece = symbols@.subrange(start as int, end as int);
        out.push(chunk);
        proof {
            let tail = chunks_of(symbols@.skip(end as int), size as nat);
            assert(vec_views(out@) =~= before.push(piece));
            assert(before.push(piece) + tail =~= before + (seq![piece] + tail));
        }
        start = end;
    }
    proof {
        assert(symbols@.skip(n as int) =~= seq![]);
        assert(vec_views(out@) + seq![] =~= vec_views(out@));
    }
    out
}

/// Relies on rayon's `ParallelSlice::par_chunks`, collected in order: chunks
/// of exactly `size` elements but the last, which may be shorter; panics on a
/// zero `size`.
#[verifier::external_body]
fn par_chunks_of(symbols: &[String], size: usize) -> (r: Vec<&[String]>)
    requires
        size > 0,
    ensures
        slice_views(r@) == chunks_of(symbols@, size as nat),
{
    symbols.par_chunks(size).collect()
}

/// Splits `symbols` as `chunk_symbols` does, through rayon's parallel
/// chunking.
pub fn par_chunk_symbols(symbols: &[String], size: usize) -> (r: Vec<Vec<String>>)
    requires
        size > 0,
    ensures
        vec_views(r@) == chunks_of(symbols@, size as nat),
{
    let parts = par_chunks_of(symbols, size);
    let mut out: Vec<Vec<String>> = Vec::with_capacity(parts.len());
    let mut i: usize = 0;
    while i < parts.len()
        invariant
            i <= parts@.len(),
            vec_views(out@) == slice_views(parts@).take(i as int),
        decreases parts@.len() - i,
    {
        let part: &[String] = parts[i];
        assert(slice_views(parts@)[i as int] == part@);
        let copy = copy_range(part, 0, part.len());
        assert(copy@ =~= part@);
        let ghost before = vec_views(out@);
        out.push(copy);
        assert(vec_views(out@) =~= before.push(part@));
        assert(slice_views(parts@).take(i + 1) =~= slice_views(parts@).take(i as int).push(part@));
        i = i + 1;
    }
    proof {
        assert(slice_views(parts@).take(i as int) =~= slice_views(parts@));
    }
    out
}

} // verus!
