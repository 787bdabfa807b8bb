//! Byte-level pieces of the puzzle text format: splitting on a separator,
//! joining with one, and decimal numbers.
use vstd::prelude::*;

verus! {

/// The pieces of `b` between occurrences of `sep`: one more piece than
/// there are separators.
pub open spec fn split(b: Seq<u8>, sep: u8) -> Seq<Seq<u8>>
    decreases b.len(),
{
    if b.len() == 0 {
        seq![Seq::empty()]
    } else {
        let s = split(b.drop_last(), sep);
        if b.last() == sep {
            s.push(Seq::empty())
        } else {
            s.drop_last().push(s.last().push(b.last()))
        }
    }
}

/// The pieces written one after another with `sep` between each two.
pub open spec fn join(parts: Seq<Seq<u8>>, sep: u8) -> Seq<u8>
    decreases parts.len(),
{
    if parts.len() == 0 {
        Seq::empty()
    } else if parts.len() == 1 {
        parts[0]
    } else {
        join(parts.drop_last(), sep).push(sep) + parts.last()
    }
}

/// The ASCII code of a decimal digit.
pub open spec fn is_digit(c: u8) -> bool {
    48 <= c <= 57
}

/// The value of a sequence of decimal digits.
pub open spec fn digits_value(b: Seq<u8>) -> int
    decreases b.len(),
{
    if b.len() == 0 {
        0
    } else {
        digits_value(b.drop_last()) * 10 + (b.last() - 48)
    }
}

/// The number that `b` spells in decimal, if it is one that fits a `usize`.
pub open spec fn number_of(b: Seq<u8>) -> Option<usize> {
    if b.len() > 0 && (forall|i: int| 0 <= i < b.len() ==> #[trigger] is_digit(b[i])) && digits_value(b)
        <= usize::MAX {
        Some(digits_value(b) as usize)
    } else {
        None
    }
}

/// The decimal digits of `n`, without leading zeros.
pub open spec fn decimal(n: nat) -> Seq<u8>
    decreases n,
{
    if n < 10 {
        seq![(48 + n) as u8]
    } else {
        decimal(n / 10).push((48 + n % 10) as u8)
    }
}

pub proof fn lemma_split_nonempty(b: Seq<u8>, sep: u8)
    ensures
        split(b, sep).len() >= 1,
    decreases b.len(),
{
    if b.len() > 0 {
        lemma_split_nonempty(b.drop_last(), sep);
    }
}

/// The pieces of `b` between occurrences of `sep`.
pub fn split_bytes(b: &[u8], sep: u8) -> (r: Vec<Vec<u8>>)
    ensures
        r@.len() == split(b@, sep).len(),
        forall|i: int| 0 <= i < r@.len() ==> #[trigger] r@[i]@ == split(b@, sep)[i],
{
    let mut parts: Vec<Vec<u8>> = Vec::new();
    let mut cur: Vec<u8> = Vec::new();
    let mut i: usize = 0;
    while i < b.len()
        invariant
            i <= b@.len(),
            split(b@.subrange(0, i as int), sep).len() == parts@.len() + 1,
            forall|j: int| 0 <= j < parts@.len() ==> #[trigger] parts@[j]@ == split(b@.subrange(0, i as int), sep)[j],
            cur@ == split(b@.subrange(0, i as int), sep).last(),
        decreases b@.len() - i,
    {
        let ghost prev = b@.subrange(0, i as int);
        assert(b@.subrange(0, i + 1).drop_last() =~= prev);
        proof {
            lemma_split_nonempty(prev, sep);
        }
        if b[i] == sep {
            parts.push(cur);
            cur = Vec::new();
        } else {
            cur.push(b[i]);
        }
        i = i + 1;
        proof {
            let now = b@.subrange(0, i as int);
            assert forall|j: int| 0 <= j < parts@.len() implies #[trigger] parts@[j]@ == split(now, sep)[j] by {}
        }
    }
    assert(b@.subrange(0, b@.len() as int) =~= b@);
    parts.push(cur);
    parts
}

/// The value of a decimal number that fits a `usize`, or `None`.
pub fn parse_number(b: &[u8]) -> (r: Option<usize>)
    ensures
        r == number_of(b@),
{
    if b.len() == 0 {
        return None;
    }
    let mut value: usize = 0;
    let mut i: usize = 0;
    while i < b.len()
        invariant
            0 < b@.len(),
            i <= b@.len(),
            value == digits_value(b@.subrange(0, i as int)),
            forall|j: int| 0 <= j < i ==> #[trigger] is_digit(b@[j]),
        decreases b@.len() - i,
    {
        let c = b[i];
        assert(b@.subrange(0, i + 1).drop_last() =~= b@.subrange(0, i as int));
        if c < 48 || c > 57 {
            assert(!is_digit(b@[i as int]));
            return None;
        }
        let d = (c - 48) as usize;
        if value > (usize::MAX - d) / 10 {
            proof {
                assert(digits_value(b@.subrange(0, i + 1)) == value * 10 + d);
                if forall|j: int| 0 <= j < b@.len() ==> #[trigger] is_digit(b@[j]) {
                    lemma_digits_prefix(b@, i + 1);
                }
                assert(value * 10 + d > usize::MAX) by (nonlinear_arith)
                    requires
                        value > (usize::MAX - d) / 10,
                        d <= 9,
                ;
            }
            return None;
        }
        proof {
            assert(value * 10 + d <= usize::MAX) by (nonlinear_arith)
                requires
                    value <= (usize::MAX - d) / 10,
                    d <= 9,
            ;
        }
        value = value * 10 + d;
        i = i + 1;
    }
    assert(b@.subrange(0, b@.len() as int) =~= b@);
    Some(value)
}

/// The value of the digits never falls as more digits follow.
pub proof fn lemma_digits_prefix(b: Seq<u8>, m: int)
    requires
        0 <= m <= b.len(),
        forall|j: int| 0 <= j < b.len() ==> #[trigger] is_digit(b[j]),
    ensures
        0 <= digits_value(b.subrange(0, m)) <= digits_value(b),
    decreases b.len(),
{
    if b.len() > 0 {
        let c = b.drop_last();
        assert forall|j: int| 0 <= j < c.len() implies #[trigger] is_digit(c[j]) by {
            assert(c[j] == b[j]);
        }
        assert(is_digit(b[b.len() - 1]));
        if m == b.len() {
            lemma_digits_prefix(c, 0);
            assert(b.subrange(0, m) =~= b);
        } else {
            lemma_digits_prefix(c, m);
            assert(c.subrange(0, m) =~= b.subrange(0, m));
        }
    } else {
        assert(b.subrange(0, m) =~= b);
    }
}

/// Appends the decimal digits of `n`.
pub fn write_decimal(n: usize, out: &mut Vec<u8>)
    ensures
        final(out)@ == old(out)@ + decimal(n as nat),
    decreases n,
{
    if n >= 10 {
        write_decimal(n / 10, out);
    }
    out.push(48 + (n % 10) as u8);
    assert(out@ =~= old(out)@ + decimal(n as nat));
}

/// Appends the pieces with `sep` between each two.
pub fn write_joined(parts: &Vec<Vec<u8>>, sep: u8, out: &mut Vec<u8>)
    ensures
        final(out)@ == old(out)@ + join(Seq::new(parts@.len(), |i: int| parts@[i]@), sep),
{
    let ghost views = Seq::new(parts@.len(), |i: int| parts@[i]@);
    let mut i: usize = 0;
    while i < parts.len()
        invariant
            i <= parts@.len(),
            views == Seq::new(parts@.len(), |i: int| parts@[i]@),
            out@ == old(out)@ + join(views.subrange(0, i as int), sep),
        decreases parts@.len() - i,
    {
        if i > 0 {
            out.push(sep);
        }
        let mut j: usize = 0;
        let ghost base = out@;
        while j < parts[i].len()
            invariant
                i < parts@.len(),
                j <= parts@[i as int]@.len(),
                out@ == base + parts@[i as int]@.subrange(0, j as int),
            decreases parts@[i as int]@.len() - j,
        {
            out.push(parts[i][j]);
            j = j + 1;
            assert(out@ =~= base + parts@[i as int]@.subrange(0, j as int));
        }
        assert(parts@[i as int]@.subrange(0, j as int) =~= parts@[i as int]@);
        let ghost now = views.subrange(0, i + 1);
        assert(now.drop_last() =~= views.subrange(0, i as int));
        if i == 0 {
            assert(out@ =~= old(out)@ + join(now, sep));
        } else {
            assert(out@ =~= old(out)@ + join(now, sep));
        }
        i = i + 1;
    }
    assert(views.subrange(0, parts@.len() as int) =~= views);
}

/// `b` holds no `sep`.
pub open spec fn free_of(b: Seq<u8>, sep: u8) -> bool {
    forall|i: int| 0 <= i < b.len() ==> #[trigger] b[i] != sep
}

/// A piece with no separator splits into itself.
pub proof fn lemma_split_single(b: Seq<u8>, sep: u8)
    requires
        free_of(b, sep),
    ensures
        split(b, sep) == seq![b],
    decreases b.len(),
{
    if b.len() > 0 {
        let c = b.drop_last();
        assert(free_of(c, sep)) by {
            assert forall|i: int| 0 <= i < c.len() implies #[trigger] c[i] != sep by {
                assert(c[i] == b[i]);
            }
        }
        lemma_split_single(c, sep);
        assert(b.last() == b[b.len() - 1]);
        assert(c.push(b.last()) =~= b);
    } else {
        assert(b =~= Seq::<u8>::empty());
    }
}

/// Appending a separator and a piece with no separator appends that piece.
pub proof fn lemma_split_append(x: Seq<u8>, l: Seq<u8>, sep: u8)
    requires
        free_of(l, sep),
    ensures
        split(x.push(sep) + l, sep) == split(x, sep).push(l),
    decreases l.len(),
{
    lemma_split_nonempty(x, sep);
    if l.len() == 0 {
        assert(x.push(sep) + l =~= x.push(sep));
        assert(x.push(sep).drop_last() =~= x);
        assert(l =~= Seq::<u8>::empty());
    } else {
        let l2 = l.drop_last();
        assert(free_of(l2, sep)) by {
            assert forall|i: int| 0 <= i < l2.len() implies #[trigger] l2[i] != sep by {
                assert(l2[i] == l[i]);
            }
        }
        lemma_split_append(x, l2, sep);
        let whole = x.push(sep) + l;
        assert(whole.drop_last() =~= x.push(sep) + l2);
        assert(whole.last() == l[l.len() - 1]);
        assert(l2.push(l[l.len() - 1]) =~= l);
        assert(split(x, sep).push(l2).drop_last() =~= split(x, sep));
    }
}

/// Splitting what was joined gives back the pieces, when none holds the
/// separator.
pub proof fn lemma_split_join(parts: Seq<Seq<u8>>, sep: u8)
    requires
        parts.len() >= 1,
        forall|i: int| 0 <= i < parts.len() ==> free_of(#[trigger] parts[i], sep),
    ensures
        split(join(parts, sep), sep) == parts,
    decreases parts.len(),
{
    if parts.len() == 1 {
        lemma_split_single(parts[0], sep);
        assert(seq![parts[0]] =~= parts);
    } else {
        let init = parts.drop_last();
        assert forall|i: int| 0 <= i < init.len() implies free_of(#[trigger] init[i], sep) by {
            assert(init[i] == parts[i]);
        }
        lemma_split_join(init, sep);
        assert(free_of(parts[parts.len() - 1], sep));
        lemma_split_append(join(init, sep), parts.last(), sep);
        assert(init.push(parts.last()) =~= parts);
    }
}

/// The decimal digits of `n` are digits, at least one, with value `n`.
pub proof fn lemma_decimal(n: nat)
    ensures
        decimal(n).len() > 0,
        forall|i: int| 0 <= i < decimal(n).len() ==> #[trigger] is_digit(decimal(n)[i]),
        digits_value(decimal(n)) == n,
    decreases n,
{
    if n >= 10 {
        lemma_decimal(n / 10);
        let d = decimal(n / 10);
        assert(decimal(n).drop_last() =~= d);
        assert forall|i: int| 0 <= i < decimal(n).len() implies #[trigger] is_digit(decimal(n)[i]) by {
            if i < d.len() {
                assert(decimal(n)[i] == d[i]);
            }
        }
        assert((n / 10) * 10 + n % 10 == n) by (nonlinear_arith);
        assert(n % 10 < 10);
        assert(decimal(n).last() == (48 + n % 10) as u8);
        assert(((48 + n % 10) as u8) as int == 48 + n % 10);
        assert(digits_value(decimal(n)) == digits_value(d) * 10 + (n % 10));
    } else {
        assert(seq![(48 + n) as u8].drop_last() =~= Seq::<u8>::empty());
        assert(((48 + n) as u8) as int == 48 + n);
        assert(digits_value(decimal(n)) == digits_value(Seq::<u8>::empty()) * 10 + n);
    }
}

/// A number written in decimal reads back as itself.
pub proof fn lemma_number_of_decimal(n: usize)
    ensures
        number_of(decimal(n as nat)) == Some(n),
{
    lemma_decimal(n as nat);
}

} // verus!

