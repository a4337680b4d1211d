use vstd::prelude::*;

verus! {

/// The sum of the flattened counts of a run of sub-fields.
pub open spec fn seq_sum(s: Seq<usize>) -> nat
    decreases s.len(),
{
    if s.len() == 0 {
        0
    } else {
        seq_sum(s.drop_last()) + s.last() as nat
    }
}

proof fn lemma_sum_step(s: Seq<usize>, k: int)
    requires
        0 <= k < s.len(),
    ensures
        seq_sum(s.take(k + 1)) == seq_sum(s.take(k)) + s[k],
{
    assert(s.take(k + 1).drop_last() =~= s.take(k));
}

proof fn lemma_sum_take_all(s: Seq<usize>)
    ensures
        seq_sum(s.take(s.len() as int)) == seq_sum(s),
{
    assert(s.take(s.len() as int) =~= s);
}

proof fn lemma_sum_monotone(s: Seq<usize>, a: int, b: int)
    requires
        0 <= a <= b <= s.len(),
    ensures
        seq_sum(s.take(a)) <= seq_sum(s.take(b)),
    decreases b - a,
{
    if a < b {
        lemma_sum_monotone(s, a, b - 1);
        lemma_sum_step(s, b - 1);
    }
}

/// The flattened count of a structure whose fields have the given counts.
pub fn struct_flattened_count(counts: &Vec<usize>) -> (r: Option<usize>)
    ensures
        match r {
            Some(n) => n == seq_sum(counts@),
            None => seq_sum(counts@) > usize::MAX,
        },
{
    let mut total: usize = 0;
    let mut i: usize = 0;
    while i < counts.len()
        invariant
            i <= counts@.len(),
            total == seq_sum(counts@.take(i as int)),
        decreases counts@.len() - i,
    {
        proof {
            lemma_sum_step(counts@, i as int);
        }
        if total > usize::MAX - counts[i] {
            proof {
                lemma_sum_monotone(counts@, i as int + 1, counts@.len() as int);
                lemma_sum_take_all(counts@);
            }
            return None;
        }
        total = total + counts[i];
        i = i + 1;
    }
    proof {
        lemma_sum_take_all(counts@);
    }
    Some(total)
}

/// The flattened count of a fixed array of `len` elements of `element` fields each.
pub fn array_flattened_count(len: usize, element: usize) -> (r: Option<usize>)
    ensures
        r == (if len * element <= usize::MAX {
            Some((len * element) as usize)
        } else {
            None
        }),
{
    len.checked_mul(element)
}

/// Routes a flattened field index to the sub-field that owns it: the first
/// whose half-open range `[start, start + count)` holds it. Returns the
/// sub-field's index and `start`, or `None` past the last field.
pub fn locate_field(counts: &Vec<usize>, field: usize) -> (r: Option<(usize, usize)>)
    ensures
        match r {
            Some((k, start)) => {
                &&& k < counts@.len()
                &&& start == seq_sum(counts@.take(k as int))
                &&& start <= field < start + counts@[k as int]
            },
            None => field >= seq_sum(counts@),
        },
{
    let mut start: usize = 0;
    let mut i: usize = 0;
    while i < counts.len()
        invariant
            i <= counts@.len(),
            start == seq_sum(counts@.take(i as int)),
            start <= field,
        decreases counts@.len() - i,
    {
        proof {
            lemma_sum_step(counts@, i as int);
        }
        if field - start < counts[i] {
            return Some((i, start));
        }
        start = start + counts[i];
        i = i + 1;
    }
    proof {
        lemma_sum_take_all(counts@);
    }
    None
}

/// Nesting adds: a structure made of the fields of two structures has the sum
/// of their flattened counts.
pub proof fn lemma_count_additive(a: Seq<usize>, b: Seq<usize>)
    ensures
        seq_sum(a + b) == seq_sum(a) + seq_sum(b),
    decreases b.len(),
{
    if b.len() > 0 {
        lemma_count_additive(a, b.drop_last());
        assert((a + b).drop_last() =~= a + b.drop_last());
    } else {
        assert(a + b =~= a);
    }
}

/// The counts of the `n` elements of a fixed array of elements of `c` fields.
pub open spec fn repeated(c: usize, n: nat) -> Seq<usize> {
    Seq::new(n, |i: int| c)
}

/// A fixed array of `n` elements of `c` fields each flattens to `n * c` fields.
pub proof fn lemma_array_count(n: nat, c: usize)
    ensures
        seq_sum(repeated(c, n)) == n * c,
    decreases n,
{
    if n > 0 {
        lemma_array_count((n - 1) as nat, c);
        assert(repeated(c, n).drop_last() =~= repeated(c, (n - 1) as nat));
        assert(repeated(c, n).last() == c);
        let m = (n - 1) as nat;
        assert(seq_sum(repeated(c, n)) == seq_sum(repeated(c, m)) + c);
        assert(n * c == m * c + c) by (nonlinear_arith)
            requires
                m + 1 == n,
        ;
    } else {
        assert(repeated(c, n) =~= Seq::<usize>::empty());
        assert(n * c == 0) by (nonlinear_arith)
            requires
                n == 0,
        ;
    }
}

} // verus!
