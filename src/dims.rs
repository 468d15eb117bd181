use vstd::prelude::*;

verus! {

/// The size of the pixel grid.
#[derive(Debug, Clone, Copy, PartialEq, Eq, Structural)]
pub struct Dimensions {
    pub width: usize,
    pub height: usize,
}

/// Why a text could not be read as a `usize`, as std's integer parse tells it.
#[derive(Debug, Clone, Copy, PartialEq, Eq, Structural)]
pub enum NumberError {
    /// The text is empty.
    Empty,
    /// A character is not a decimal digit (a lone `+` included).
    InvalidDigit,
    /// The value does not fit in `usize`.
    Overflow,
}

/// Why a text could not be read as `<width>x<height>`.
#[derive(Debug, Clone, Copy, PartialEq, Eq, Structural)]
pub enum DimensionsError {
    /// The text does not hold exactly one `x`.
    Format,
    /// The width, before the `x`, is not a `usize`.
    Width(NumberError),
    /// The width is read, but the height, after the `x`, is not a `usize`.
    Height(NumberError),
}

pub open spec fn is_digit(c: char) -> bool {
    '0' <= c <= '9'
}

/// Reads `d` from position `k` on, left to right, with `acc` the value of
/// what came before: the first character that is not a digit, or the first
/// step whose value exceeds `usize::MAX`, ends the reading with its error.
pub open spec fn scan_digits(d: Seq<char>, k: int, acc: nat) -> Result<nat, NumberError>
    decreases d.len() - k,
{
    if k >= d.len() {
        Ok(acc)
    } else if !is_digit(d[k]) {
        Err(NumberError::InvalidDigit)
    } else if acc * 10 + (d[k] as nat - '0' as nat) > usize::MAX {
        Err(NumberError::Overflow)
    } else {
        scan_digits(d, k + 1, (acc * 10 + (d[k] as nat - '0' as nat)) as nat)
    }
}

/// The digits of a number, after an optional leading `+`.
pub open spec fn unsigned_digits(s: Seq<char>) -> Seq<char> {
    if s.len() > 0 && s[0] == '+' {
        s.drop_first()
    } else {
        s
    }
}

/// What reading a text as a decimal `usize` gives: an optional `+`, then one
/// or more digits whose value fits.
pub open spec fn usize_of(s: Seq<char>) -> Result<nat, NumberError> {
    if s.len() == 0 {
        Err(NumberError::Empty)
    } else if unsigned_digits(s).len() == 0 {
        Err(NumberError::InvalidDigit)
    } else {
        scan_digits(unsigned_digits(s), 0, 0)
    }
}

/// What `<width>x<height>` gives when its sides are `w` and `h`: the width is
/// read first.
pub open spec fn dimensions_of(w: Seq<char>, h: Seq<char>) -> Result<Dimensions, DimensionsError> {
    match usize_of(w) {
        Err(e) => Err(DimensionsError::Width(e)),
        Ok(width) => match usize_of(h) {
            Err(e) => Err(DimensionsError::Height(e)),
            Ok(height) => Ok(Dimensions { width: width as usize, height: height as usize }),
        },
    }
}

/// The number of `x` characters in a text.
pub open spec fn count_x(s: Seq<char>) -> nat
    decreases s.len(),
{
    if s.len() == 0 {
        0
    } else {
        count_x(s.drop_last()) + if s.last() == 'x' {
            1nat
        } else {
            0nat
        }
    }
}

/// Reads characters `from..to` of `s` as a `usize`, the way `usize_of` says.
fn parse_usize(s: &str, from: usize, to: usize) -> (r: Result<usize, NumberError>)
    requires
        from <= to <= s@.len(),
    ensures
        match usize_of(s@.subrange(from as int, to as int)) {
            Ok(n) => r == Ok::<usize, NumberError>(n as usize) && n <= usize::MAX,
            Err(e) => r == Err::<usize, NumberError>(e),
        },
{
    let ghost t = s@.subrange(from as int, to as int);
    if from == to {
        return Err(NumberError::Empty);
    }
    let mut start: usize = from;
    if s.get_char(from) == '+' {
        start = from + 1;
    }
    let ghost d = s@.subrange(start as int, to as int);
    assert(d =~= unsigned_digits(t));
    if start == to {
        return Err(NumberError::InvalidDigit);
    }
    let mut value: usize = 0;
    let mut k: usize = start;
    while k < to
        invariant
            from <= start < to <= s@.len(),
            d == s@.subrange(start as int, to as int),
            t == s@.subrange(from as int, to as int),
            d == unsigned_digits(t),
            t.len() > 0,
            d.len() > 0,
            start <= k <= to,
            scan_digits(d, 0, 0) == scan_digits(d, k - start, value as nat),
        decreases to - k,
    {
        let c = s.get_char(k);
        assert(c == d[k - start]);
        if c < '0' || c > '9' {
            assert(scan_digits(d, k - start, value as nat) == Err::<nat, NumberError>(
                NumberError::InvalidDigit,
            ));
            return Err(NumberError::InvalidDigit);
        }
        let digit = (c as u32 - '0' as u32) as usize;
        if value > (usize::MAX - digit) / 10 {
            assert(value * 10 + digit > usize::MAX) by (nonlinear_arith)
                requires
                    value > (usize::MAX - digit) / 10,
                    digit <= 9,
            ;
            assert(is_digit(d[k - start]));
            assert(scan_digits(d, k - start, value as nat) == Err::<nat, NumberError>(
                NumberError::Overflow,
            ));
            return Err(NumberError::Overflow);
        }
        assert(value * 10 + digit <= usize::MAX) by (nonlinear_arith)
            requires
                value <= (usize::MAX - digit) / 10,
                digit <= 9,
        ;
        value = value * 10 + digit;
        k = k + 1;
    }
    Ok(value)
}

impl Dimensions {
    /// Reads `<width>x<height>`: exactly one `x`, with a decimal `usize` on
    /// each side, the width read first.
    pub fn from_str(s: &str) -> (r: Result<Dimensions, DimensionsError>)
        ensures
            r == Err::<Dimensions, DimensionsError>(DimensionsError::Format) <==> count_x(s@) != 1,
            forall|p: int|
                0 <= p < s@.len() && s@[p] == 'x' && count_x(s@) == 1 ==> r == dimensions_of(
                    #[trigger] s@.take(p),
                    s@.skip(p + 1),
                ),
    {
        let n = s.unicode_len();
        let mut count: usize = 0;
        let mut pos: usize = 0;
        let mut k: usize = 0;
        while k < n
            invariant
                n == s@.len(),
                k <= n,
                count == count_x(s@.take(k as int)),
                count <= k,
                count >= 1 ==> pos < k && s@[pos as int] == 'x' && count_x(s@.take(pos as int)) == 0,
            decreases n - k,
        {
            assert(s@.take(k + 1).drop_last() =~= s@.take(k as int));
            if s.get_char(k) == 'x' {
                if count == 0 {
                    pos = k;
                }
                count = count + 1;
            }
            k = k + 1;
        }
        assert(s@.take(n as int) =~= s@);
        if count != 1 {
            return Err(DimensionsError::Format);
        }
        proof {
            lemma_single_x(s@, pos as int);
        }
        assert(s@.subrange(0, pos as int) =~= s@.take(pos as int));
        assert(s@.subrange(pos + 1, n as int) =~= s@.skip(pos + 1));
        match parse_usize(s, 0, pos) {
            Err(e) => Err(DimensionsError::Width(e)),
            Ok(width) => match parse_usize(s, pos + 1, n) {
                Err(e) => Err(DimensionsError::Height(e)),
                Ok(height) => Ok(Dimensions { width, height }),
            },
        }
    }
}

proof fn lemma_count_x_split(s: Seq<char>, p: int)
    requires
        0 <= p <= s.len(),
    ensures
        count_x(s) == count_x(s.take(p)) + count_x(s.skip(p)),
    decreases s.len() - p,
{
    if p < s.len() {
        lemma_count_x_split(s, p + 1);
        assert(s.take(p + 1).drop_last() =~= s.take(p));
        lemma_count_x_prepend(s.skip(p));
        assert(s.skip(p).drop_first() =~= s.skip(p + 1));
    } else {
        assert(s.take(p) =~= s);
        assert(s.skip(p).len() == 0);
    }
}

proof fn lemma_count_x_prepend(s: Seq<char>)
    requires
        s.len() > 0,
    ensures
        count_x(s) == count_x(s.drop_first()) + if s[0] == 'x' {
            1nat
        } else {
            0nat
        },
    decreases s.len(),
{
    if s.len() > 1 {
        lemma_count_x_prepend(s.drop_last());
        assert(s.drop_last().drop_first() =~= s.drop_first().drop_last());
        assert(s.drop_first().last() == s.last());
        assert(s.drop_last()[0] == s[0]);
        let a = s.drop_first();
        assert(count_x(a) == count_x(a.drop_last()) + if a.last() == 'x' {
            1nat
        } else {
            0nat
        });
    } else {
        assert(s.drop_first().len() == 0);
        assert(s.drop_last().len() == 0);
        assert(count_x(s.drop_first()) == 0);
        assert(count_x(s.drop_last()) == 0);
        assert(s.last() == s[0]);
    }
}

proof fn lemma_count_x_at(s: Seq<char>, p: int)
    requires
        0 <= p < s.len(),
        s[p] == 'x',
    ensures
        count_x(s) >= count_x(s.take(p)) + 1 + count_x(s.skip(p + 1)),
{
    lemma_count_x_split(s, p);
    lemma_count_x_prepend(s.skip(p));
    assert(s.skip(p).drop_first() =~= s.skip(p + 1));
}

/// With exactly one `x`, at `p`, every `x` of the text stands at `p`.
proof fn lemma_single_x(s: Seq<char>, p: int)
    requires
        0 <= p < s.len(),
        s[p] == 'x',
        count_x(s) == 1,
    ensures
        forall|q: int| 0 <= q < s.len() && s[q] == 'x' ==> q == p,
{
    assert forall|q: int| 0 <= q < s.len() && s[q] == 'x' implies q == p by {
        if q != p {
            let (a, b) = if q < p {
                (q, p)
            } else {
                (p, q)
            };
            lemma_count_x_at(s, b);
            lemma_count_x_at(s.take(b), a);
            assert(s.take(b).take(a) =~= s.take(a));
        }
    }
}

} // verus!
