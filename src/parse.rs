use vstd::prelude::*;

verus! {

/// The byte that separates the model name from its parameters.
pub const NAME_DELIMITER: u8 = 47;

/// The byte that separates two parameters.
pub const PARAM_DELIMITER: u8 = 44;

/// The contents of a sequence of byte vectors.
pub open spec fn token_views(v: Seq<Vec<u8>>) -> Seq<Seq<u8>> {
    v.map_values(|t: Vec<u8>| t@)
}

/// `i` is the position of the first occurrence of `d` in `s`.
pub open spec fn is_first(s: Seq<u8>, d: u8, i: int) -> bool {
    &&& 0 <= i < s.len()
    &&& s[i] == d
    &&& forall|j: int| 0 <= j < i ==> s[j] != d
}

/// `s` cut at the first `d`: the part before and, if `d` occurs, the part after.
pub open spec fn split_once(s: Seq<u8>, d: u8) -> (Seq<u8>, Option<Seq<u8>>) {
    if exists|i: int| is_first(s, d, i) {
        let i = choose|i: int| is_first(s, d, i);
        (s.subrange(0, i), Some(s.subrange(i + 1, s.len() as int)))
    } else {
        (s, None)
    }
}

/// `s` cut at every `d`: always at least one piece, possibly empty ones.
pub open spec fn split_all(s: Seq<u8>, d: u8) -> Seq<Seq<u8>>
    decreases s.len(),
{
    if exists|i: int| is_first(s, d, i) {
        let i = choose|i: int| is_first(s, d, i);
        seq![s.subrange(0, i)] + split_all(s.subrange(i + 1, s.len() as int), d)
    } else {
        seq![s]
    }
}

/// The model name of a specification: everything before the first `/`.
pub open spec fn spec_model_name(s: Seq<u8>) -> Seq<u8> {
    split_once(s, NAME_DELIMITER).0
}

/// The parameter tokens of a specification: what follows the first `/`, cut
/// at each `,`; none when there is no `/`.
pub open spec fn spec_tokens(s: Seq<u8>) -> Seq<Seq<u8>> {
    match split_once(s, NAME_DELIMITER).1 {
        Some(rest) => split_all(rest, PARAM_DELIMITER),
        None => Seq::empty(),
    }
}

pub proof fn lemma_first_unique(s: Seq<u8>, d: u8, i: int, j: int)
    requires
        is_first(s, d, i),
        is_first(s, d, j),
    ensures
        i == j,
{
}

/// The first position at or after `start` that holds `d`, or `s.len()`.
fn find_from(s: &Vec<u8>, d: u8, start: usize) -> (r: usize)
    requires
        start <= s@.len(),
    ensures
        start <= r <= s@.len(),
        r < s@.len() ==> s@[r as int] == d,
        forall|j: int| start <= j < r ==> s@[j] != d,
{
    let mut i: usize = start;
    while i < s.len()
        invariant
            start <= i <= s@.len(),
            forall|j: int| start <= j < i ==> s@[j] != d,
        decreases s@.len() - i,
    {
        if s[i] == d {
            return i;
        }
        i = i + 1;
    }
    i
}

/// A copy of `s[a..b]`.
fn copy_range(s: &Vec<u8>, a: usize, b: usize) -> (r: Vec<u8>)
    requires
        a <= b <= s@.len(),
    ensures
        r@ == s@.subrange(a as int, b as int),
{
    let mut r: Vec<u8> = Vec::new();
    let mut i: usize = a;
    while i < b
        invariant
            a <= i <= b <= s@.len(),
            r@ == s@.subrange(a as int, i as int),
        decreases b - i,
    {
        r.push(s[i]);
        assert(s@.subrange(a as int, i + 1) =~= s@.subrange(a as int, i as int).push(s@[i as int]));
        i = i + 1;
    }
    r
}

/// Cuts `s` at every `d`.
fn split_bytes(s: &Vec<u8>, d: u8) -> (r: Vec<Vec<u8>>)
    ensures
        token_views(r@) == split_all(s@, d),
{
    let mut out: Vec<Vec<u8>> = Vec::new();
    let mut start: usize = 0;
    assert(s@.subrange(0, s@.len() as int) =~= s@);
    assert(token_views(out@) =~= Seq::<Seq<u8>>::empty());
    loop
        invariant
            start <= s@.len(),
            split_all(s@, d) == token_views(out@) + split_all(
                s@.subrange(start as int, s@.len() as int),
                d,
            ),
        decreases s@.len() - start,
    {
        let ghost rest = s@.subrange(start as int, s@.len() as int);
        let e = find_from(s, d, start);
        let piece = copy_range(s, start, e);
        if e == s.len() {
            assert(!exists|i: int| is_first(rest, d, i));
            let ghost old_out = token_views(out@);
            out.push(piece);
            assert(token_views(out@) =~= old_out.push(piece@));
            assert(split_all(rest, d) == seq![rest]);
            assert(rest =~= piece@);
            assert(split_all(s@, d) =~= token_views(out@));
            return out;
        }
        assert(is_first(rest, d, e - start));
        let ghost k = choose|i: int| is_first(rest, d, i);
        proof {
            lemma_first_unique(rest, d, k, e - start);
        }
        assert(rest.subrange(0, e - start) =~= piece@);
        assert(rest.subrange(e - start + 1, rest.len() as int) =~= s@.subrange(
            e + 1,
            s@.len() as int,
        ));
        let ghost old_out = token_views(out@);
        out.push(piece);
        assert(token_views(out@) =~= old_out.push(piece@));
        assert(old_out + split_all(rest, d) =~= token_views(out@) + split_all(
            s@.subrange(e + 1, s@.len() as int),
            d,
        ));
        start = e + 1;
    }
}

/// A specification string taken apart: the model name and the raw
/// parameter tokens, in order. No number is read at this stage.
pub struct GraphSpec {
    pub name: Vec<u8>,
    pub tokens: Vec<Vec<u8>>,
}

impl GraphSpec {
    /// Splits `s` at its first `/`; what follows is cut at each `,`.
    pub fn parse(s: &[u8]) -> (r: GraphSpec)
        ensures
            r.name@ == spec_model_name(s@),
            token_views(r.tokens@) == spec_tokens(s@),
    {
        let mut v: Vec<u8> = Vec::new();
        let mut i: usize = 0;
        while i < s.len()
            invariant
                i <= s@.len(),
                v@ == s@.subrange(0, i as int),
            decreases s@.len() - i,
        {
            v.push(s[i]);
            assert(s@.subrange(0, i + 1) =~= s@.subrange(0, i as int).push(s@[i as int]));
            i = i + 1;
        }
        assert(v@ =~= s@);
        let e = find_from(&v, NAME_DELIMITER, 0);
        let name = copy_range(&v, 0, e);
        if e == v.len() {
            assert(!exists|i: int| is_first(s@, NAME_DELIMITER, i));
            assert(name@ =~= s@);
            let tokens: Vec<Vec<u8>> = Vec::new();
            assert(token_views(tokens@) =~= Seq::<Seq<u8>>::empty());
            GraphSpec { name, tokens }
        } else {
            assert(is_first(s@, NAME_DELIMITER, e as int));
            let ghost k = choose|i: int| is_first(s@, NAME_DELIMITER, i);
            proof {
                lemma_first_unique(s@, NAME_DELIMITER, k, e as int);
            }
            let rest = copy_range(&v, e + 1, v.len());
            let tokens = split_bytes(&rest, PARAM_DELIMITER);
            GraphSpec { name, tokens }
        }
    }
}

/// The byte `.` that separates the integral and fractional digits of a decimal.
pub const DECIMAL_POINT: u8 = 46;

/// The most fractional digits that a probability may carry: ten to this
/// power still fits a `u64`.
pub const MAX_FRACTION_DIGITS: usize = 18;

pub open spec fn is_digit(b: u8) -> bool {
    48 <= b <= 57
}

pub open spec fn all_digits(s: Seq<u8>) -> bool {
    forall|i: int| 0 <= i < s.len() ==> is_digit(#[trigger] s[i])
}

/// The number that the decimal digits `s` write, most significant first.
pub open spec fn digits_value(s: Seq<u8>) -> nat
    decreases s.len(),
{
    if s.len() == 0 {
        0
    } else {
        digits_value(s.drop_last()) * 10 + (s.last() - 48) as nat
    }
}

pub open spec fn pow10(n: nat) -> nat
    decreases n,
{
    if n == 0 {
        1
    } else {
        10 * pow10((n - 1) as nat)
    }
}

/// An unsigned integer token: one or more decimal digits whose value fits a `u64`.
pub open spec fn parse_count(tok: Seq<u8>) -> Option<u64> {
    if tok.len() > 0 && all_digits(tok) && digits_value(tok) <= u64::MAX {
        Some(digits_value(tok) as u64)
    } else {
        None
    }
}

/// A decimal token `i`, `i.`, `i.f` or `.f`, with at least one digit in all,
/// at most eighteen after the point, and an integral part that fits a `u64`.
/// The result is the integral part, the fractional digits as an integer,
/// and ten to the number of fractional digits; the value written is
/// `int + frac / scale`.
pub open spec fn parse_decimal(tok: Seq<u8>) -> Option<(u64, u64, u64)> {
    let ip = split_once(tok, DECIMAL_POINT).0;
    let fp = match split_once(tok, DECIMAL_POINT).1 {
        Some(f) => f,
        None => Seq::empty(),
    };
    if all_digits(ip) && all_digits(fp) && ip.len() + fp.len() > 0 && fp.len()
        <= MAX_FRACTION_DIGITS && digits_value(ip) <= u64::MAX {
        Some((digits_value(ip) as u64, digits_value(fp) as u64, pow10(fp.len()) as u64))
    } else {
        None
    }
}

pub proof fn lemma_prefix_value_le(s: Seq<u8>, i: int)
    requires
        0 <= i <= s.len(),
    ensures
        digits_value(s.subrange(0, i)) <= digits_value(s),
    decreases s.len(),
{
    if i < s.len() {
        lemma_prefix_value_le(s.drop_last(), i);
        assert(s.drop_last().subrange(0, i) =~= s.subrange(0, i));
    } else {
        assert(s.subrange(0, i) =~= s);
    }
}

pub proof fn lemma_value_below_pow10(s: Seq<u8>)
    requires
        all_digits(s),
    ensures
        digits_value(s) < pow10(s.len()),
    decreases s.len(),
{
    if s.len() > 0 {
        let t = s.drop_last();
        assert(all_digits(t)) by {
            assert forall|i: int| 0 <= i < t.len() implies is_digit(#[trigger] t[i]) by {
                assert(t[i] == s[i]);
            }
        }
        lemma_value_below_pow10(t);
        assert(is_digit(s[s.len() - 1]));
        assert(pow10(s.len()) == 10 * pow10(t.len()));
    }
}

pub proof fn lemma_pow10_monotone(a: nat, b: nat)
    requires
        a <= b,
    ensures
        pow10(a) <= pow10(b),
    decreases b,
{
    if a < b {
        lemma_pow10_monotone(a, (b - 1) as nat);
    }
}

/// Reads an unsigned integer token.
pub fn parse_u64(tok: &Vec<u8>) -> (r: Option<u64>)
    ensures
        r == parse_count(tok@),
{
    if tok.len() == 0 {
        return None;
    }
    let mut v: u64 = 0;
    let mut i: usize = 0;
    while i < tok.len()
        invariant
            i <= tok@.len(),
            all_digits(tok@.subrange(0, i as int)),
            v == digits_value(tok@.subrange(0, i as int)),
        decreases tok@.len() - i,
    {
        let b = tok[i];
        if b < 48 || b > 57 {
            assert(!is_digit(tok@[i as int]));
            return None;
        }
        let ghost pre = tok@.subrange(0, i as int);
        let ghost next = tok@.subrange(0, i + 1);
        assert(next.drop_last() =~= pre);
        assert(all_digits(next));
        match v.checked_mul(10) {
            Some(w) => match w.checked_add((b - 48) as u64) {
                Some(x) => {
                    v = x;
                },
                None => {
                    proof {
                        if all_digits(tok@) {
                            lemma_prefix_value_le(tok@, i + 1);
                        }
                    }
                    return None;
                },
            },
            None => {
                proof {
                    if all_digits(tok@) {
                        lemma_prefix_value_le(tok@, i + 1);
                    }
                }
                return None;
            },
        }
        i = i + 1;
    }
    assert(tok@.subrange(0, i as int) =~= tok@);
    Some(v)
}

/// Ten to the power `n`, for `n` up to eighteen.
fn pow10_u64(n: usize) -> (r: u64)
    requires
        n <= MAX_FRACTION_DIGITS,
    ensures
        r == pow10(n as nat),
{
    proof {
        reveal_with_fuel(pow10, 19);
    }
    let mut r: u64 = 1;
    let mut i: usize = 0;
    while i < n
        invariant
            i <= n <= MAX_FRACTION_DIGITS,
            r == pow10(i as nat),
            pow10(18) == 1000000000000000000,
        decreases n - i,
    {
        proof {
            lemma_pow10_monotone((i + 1) as nat, 18);
        }
        r = r * 10;
        i = i + 1;
    }
    r
}

/// Reads a decimal token, see `parse_decimal`.
pub fn parse_decimal_token(tok: &Vec<u8>) -> (r: Option<(u64, u64, u64)>)
    ensures
        r == parse_decimal(tok@),
{
    let e = find_from(tok, DECIMAL_POINT, 0);
    let ip = copy_range(tok, 0, e);
    let fp = if e < tok.len() {
        copy_range(tok, e + 1, tok.len())
    } else {
        Vec::new()
    };
    proof {
        if e < tok@.len() {
            assert(is_first(tok@, DECIMAL_POINT, e as int));
            let k = choose|i: int| is_first(tok@, DECIMAL_POINT, i);
            lemma_first_unique(tok@, DECIMAL_POINT, k, e as int);
        } else {
            assert(!exists|i: int| is_first(tok@, DECIMAL_POINT, i));
            assert(ip@ =~= tok@);
            assert(fp@ =~= Seq::<u8>::empty());
        }
    }
    if ip.len() + fp.len() == 0 || fp.len() > MAX_FRACTION_DIGITS {
        return None;
    }
    let int_part = if ip.len() == 0 {
        assert(all_digits(ip@));
        0
    } else {
        match parse_u64(&ip) {
            Some(v) => v,
            None => {
                return None;
            },
        }
    };
    if fp.len() == 0 {
        assert(all_digits(fp@));
        return Some((int_part, 0, 1));
    }
    let frac = match parse_u64(&fp) {
        Some(v) => v,
        None => {
            proof {
                if all_digits(fp@) {
                    lemma_value_below_pow10(fp@);
                    lemma_pow10_monotone(fp@.len(), 18);
                    reveal_with_fuel(pow10, 19);
                }
            }
            return None;
        },
    };
    let scale = pow10_u64(fp.len());
    Some((int_part, frac, scale))
}

} // verus!
