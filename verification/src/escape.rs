use vstd::prelude::*;

verus! {

/// True when the field holds a byte that forces quoting: the delimiter,
/// the quote character, or a line break (`\n` or `\r`).
pub open spec fn has_special(f: Seq<u8>, d: u8, q: u8) -> bool {
    exists|i: int| 0 <= i < f.len() && (f[i] == d || f[i] == q || f[i] == 10 || f[i] == 13)
}

/// `f` with every occurrence of the quote byte doubled.
pub open spec fn dbl_quotes(f: Seq<u8>, q: u8) -> Seq<u8>
    decreases f.len(),
{
    if f.len() == 0 {
        Seq::empty()
    } else {
        (if f[0] == q {
            seq![q, q]
        } else {
            seq![f[0]]
        }) + dbl_quotes(f.drop_first(), q)
    }
}

/// Whether the escaper quotes the field: it holds a structural byte, or it
/// is empty and the caller asks for empty fields to be quoted (a non-null
/// empty text cell, kept distinguishable from the null sentinel).
pub open spec fn must_quote(f: Seq<u8>, d: u8, q: u8, quote_empty: bool) -> bool {
    has_special(f, d, q) || (quote_empty && f.len() == 0)
}

/// The escaped form of a formatted field: wrapped in quote bytes with inner
/// quotes doubled when quoting is required, the field verbatim otherwise.
pub open spec fn escaped_field(f: Seq<u8>, d: u8, q: u8, quote_empty: bool) -> Seq<u8> {
    if must_quote(f, d, q, quote_empty) {
        seq![q] + dbl_quotes(f, q) + seq![q]
    } else {
        f
    }
}

/// Doubling distributes over appending one byte at the end.
pub proof fn lemma_dbl_quotes_push(f: Seq<u8>, q: u8, b: u8)
    ensures
        dbl_quotes(f.push(b), q) == dbl_quotes(f, q) + (if b == q {
            seq![q, q]
        } else {
            seq![b]
        }),
    decreases f.len(),
{
    if f.len() == 0 {
        let s = f.push(b);
        assert(s.len() == 1 && s[0] == b);
        assert(s.drop_first() =~= Seq::<u8>::empty());
        assert(dbl_quotes(s.drop_first(), q) =~= Seq::<u8>::empty());
        assert(dbl_quotes(s, q) =~= (if b == q {
            seq![q, q]
        } else {
            seq![b]
        }));
        assert(dbl_quotes(f, q) =~= Seq::<u8>::empty());
        assert(dbl_quotes(f, q) + (if b == q {
            seq![q, q]
        } else {
            seq![b]
        }) =~= (if b == q {
            seq![q, q]
        } else {
            seq![b]
        }));
    } else {
        assert(f.push(b).drop_first() =~= f.drop_first().push(b));
        lemma_dbl_quotes_push(f.drop_first(), q, b);
        assert(dbl_quotes(f.push(b), q) =~= dbl_quotes(f, q) + (if b == q {
            seq![q, q]
        } else {
            seq![b]
        }));
    }
}

/// Append the escaped form of `f` to `out`.
pub fn escape_into(out: &mut Vec<u8>, f: &Vec<u8>, d: u8, q: u8, quote_empty: bool)
    ensures
        final(out)@ == old(out)@ + escaped_field(f@, d, q, quote_empty),
{
    let mut needs: bool = quote_empty && f.len() == 0;
    let mut i: usize = 0;
    while i < f.len()
        invariant
            i <= f@.len(),
            needs == must_quote(f@.take(i as int), d, q, quote_empty && f@.len() == 0),
        decreases f@.len() - i,
    {
        let b = f[i];
        if b == d || b == q || b == 10 || b == 13 {
            needs = true;
        }
        proof {
            assert(f@.take(i + 1) =~= f@.take(i as int).push(f@[i as int]));
            if f@[i as int] == d || f@[i as int] == q || f@[i as int] == 10 || f@[i as int]
                == 13 {
                assert(f@.take(i + 1)[i as int] == f@[i as int]);
                assert(has_special(f@.take(i + 1), d, q));
            } else if !needs && has_special(f@.take(i + 1), d, q) {
                let j = choose|j: int|
                    0 <= j < f@.take(i + 1).len() && ((#[trigger] f@.take(i + 1)[j]) == d
                        || f@.take(i + 1)[j] == q || f@.take(i + 1)[j] == 10 || f@.take(i + 1)[j]
                        == 13);
                assert(j < i);
                assert(f@.take(i as int)[j] == f@.take(i + 1)[j]);
                assert(has_special(f@.take(i as int), d, q));
                assert(false);
            }
        }
        i = i + 1;
    }
    assert(f@.take(f@.len() as int) =~= f@);
    if !needs {
        let mut j: usize = 0;
        while j < f.len()
            invariant
                j <= f@.len(),
                out@ == old(out)@ + f@.take(j as int),
            decreases f@.len() - j,
        {
            out.push(f[j]);
            assert(f@.take(j + 1) =~= f@.take(j as int).push(f@[j as int]));
            j = j + 1;
        }
        assert(out@ =~= old(out)@ + escaped_field(f@, d, q, quote_empty));
    } else {
        out.push(q);
        let ghost start = out@;
        let mut j: usize = 0;
        while j < f.len()
            invariant
                j <= f@.len(),
                out@ == start + dbl_quotes(f@.take(j as int), q),
            decreases f@.len() - j,
        {
            let b = f[j];
            out.push(b);
            if b == q {
                out.push(q);
            }
            proof {
                lemma_dbl_quotes_push(f@.take(j as int), q, f@[j as int]);
                assert(f@.take(j + 1) =~= f@.take(j as int).push(f@[j as int]));
                assert(out@ =~= start + dbl_quotes(f@.take(j + 1), q));
            }
            j = j + 1;
        }
        out.push(q);
        assert(out@ =~= old(out)@ + escaped_field(f@, d, q, quote_empty));
    }
}

} // verus!
