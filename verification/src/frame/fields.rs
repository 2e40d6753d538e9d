//! Reading text fields: whitespace trimming, integer parsing, and splitting
//! text into lines and tab-separated fields.
use vstd::prelude::*;

verus! {

/// A Unicode `White_Space` character, the set that `char::is_whitespace` and
/// `str::trim` use.
pub open spec fn is_space(c: char) -> bool {
    let u = c as u32;
    ||| 9 <= u <= 13
    ||| u == 32
    ||| u == 0x85
    ||| u == 0xA0
    ||| u == 0x1680
    ||| 0x2000 <= u <= 0x200A
    ||| u == 0x2028
    ||| u == 0x2029
    ||| u == 0x202F
    ||| u == 0x205F
    ||| u == 0x3000
}

/// The text without its leading whitespace.
pub open spec fn trim_start(s: Seq<char>) -> Seq<char>
    decreases s.len(),
{
    if s.len() > 0 && is_space(s[0]) {
        trim_start(s.skip(1))
    } else {
        s
    }
}

/// The text without its trailing whitespace.
pub open spec fn trim_end(s: Seq<char>) -> Seq<char>
    decreases s.len(),
{
    if s.len() > 0 && is_space(s.last()) {
        trim_end(s.drop_last())
    } else {
        s
    }
}

/// The text without leading and trailing whitespace.
pub open spec fn trim(s: Seq<char>) -> Seq<char> {
    trim_end(trim_start(s))
}

/// Tests a character for whitespace.
pub fn char_is_space(c: char) -> (r: bool)
    ensures
        r == is_space(c),
{
    let u = c as u32;
    (9 <= u && u <= 13) || u == 32 || u == 0x85 || u == 0xA0 || u == 0x1680 || (0x2000 <= u && u <= 0x200A) || u
        == 0x2028 || u == 0x2029 || u == 0x202F || u == 0x205F || u == 0x3000
}

pub proof fn lemma_trim_start_at(s: Seq<char>, a: int)
    requires
        0 <= a <= s.len(),
        forall|k: int| 0 <= k < a ==> is_space(s[k]),
        a == s.len() || !is_space(s[a]),
    ensures
        trim_start(s) == s.skip(a),
    decreases a,
{
    if a == 0 {
        assert(s.skip(0) =~= s);
    } else {
        let t = s.skip(1);
        assert forall|k: int| 0 <= k < a - 1 implies is_space(t[k]) by {
            assert(t[k] == s[k + 1]);
        }
        if a - 1 < t.len() {
            assert(t[a - 1] == s[a]);
        }
        lemma_trim_start_at(t, a - 1);
        assert(t.skip(a - 1) =~= s.skip(a));
    }
}

pub proof fn lemma_trim_end_at(s: Seq<char>, b: int)
    requires
        0 <= b <= s.len(),
        forall|k: int| b <= k < s.len() ==> is_space(s[k]),
        b == 0 || !is_space(s[b - 1]),
    ensures
        trim_end(s) == s.take(b),
    decreases s.len() - b,
{
    if b == s.len() {
        assert(s.take(b) =~= s);
    } else {
        let t = s.drop_last();
        assert forall|k: int| b <= k < t.len() implies is_space(t[k]) by {
            assert(t[k] == s[k]);
        }
        if b > 0 {
            assert(t[b - 1] == s[b - 1]);
        }
        lemma_trim_end_at(t, b);
        assert(t.take(b) =~= s.take(b));
    }
}

/// Bounds `[a, b)` of the trimmed text `cs[from..to]`.
pub fn trim_bounds(cs: &Vec<char>, from: usize, to: usize) -> (r: (usize, usize))
    requires
        from <= to <= cs@.len(),
    ensures
        from <= r.0 <= r.1 <= to,
        cs@.subrange(r.0 as int, r.1 as int) == trim(cs@.subrange(from as int, to as int)),
{
    let ghost s = cs@.subrange(from as int, to as int);
    let mut a = from;
    while a < to && char_is_space(cs[a])
        invariant
            from <= a <= to <= cs@.len(),
            forall|k: int| from <= k < a ==> is_space(cs@[k]),
        decreases to - a,
    {
        a = a + 1;
    }
    let mut b = to;
    while b > a && char_is_space(cs[b - 1])
        invariant
            from <= a <= b <= to <= cs@.len(),
            forall|k: int| b <= k < to ==> is_space(cs@[k]),
        decreases b - a,
    {
        b = b - 1;
    }
    proof {
        lemma_trim_start_at(s, a - from);
        let t = s.skip(a - from);
        assert(t =~= cs@.subrange(a as int, to as int));
        if b == a && a < to {
            assert(is_space(cs@[a as int]) || true);
        }
        assert forall|k: int| b - a <= k < t.len() implies is_space(t[k]) by {
            assert(t[k] == cs@[a + k]);
        }
        if b > a {
            assert(t[b - a - 1] == cs@[b - 1]);
        }
        lemma_trim_end_at(t, b - a);
        assert(t.take(b - a) =~= cs@.subrange(a as int, b as int));
    }
    (a, b)
}

/// Why a text is not an `i64`, as `str::parse::<i64>` reports it.
#[derive(Debug, Clone, Copy)]
pub enum IntErrorKind {
    Empty,
    InvalidDigit,
    PosOverflow,
    NegOverflow,
}

/// Message of a parse failure, as its `Display` shows it.
pub open spec fn int_error_message(k: IntErrorKind) -> Seq<char> {
    match k {
        IntErrorKind::Empty => "cannot parse integer from empty string"@,
        IntErrorKind::InvalidDigit => "invalid digit found in string"@,
        IntErrorKind::PosOverflow => "number too large to fit in target type"@,
        IntErrorKind::NegOverflow => "number too small to fit in target type"@,
    }
}

/// Message of a parse failure.
pub fn int_error_text(k: IntErrorKind) -> (r: String)
    ensures
        r@ == int_error_message(k),
{
    match k {
        IntErrorKind::Empty => String::from_str("cannot parse integer from empty string"),
        IntErrorKind::InvalidDigit => String::from_str("invalid digit found in string"),
        IntErrorKind::PosOverflow => String::from_str("number too large to fit in target type"),
        IntErrorKind::NegOverflow => String::from_str("number too small to fit in target type"),
    }
}

/// An ASCII decimal digit.
pub open spec fn is_digit(c: char) -> bool {
    '0' as u32 <= c as u32 <= '9' as u32
}

/// Value of a decimal digit.
pub open spec fn digit_value(c: char) -> int {
    c as u32 - '0' as u32
}

/// Reads the first `k` digits of `d` left to right, negated when `neg`;
/// the first character that is not a digit, or the first step that leaves
/// the `i64` range, ends the reading with that failure.
pub open spec fn read_digits(d: Seq<char>, neg: bool, k: int) -> Result<int, IntErrorKind>
    decreases k,
{
    if k <= 0 {
        Ok(0)
    } else {
        match read_digits(d, neg, k - 1) {
            Err(e) => Err(e),
            Ok(v) => if !is_digit(d[k - 1]) {
                Err(IntErrorKind::InvalidDigit)
            } else {
                let w = if neg { v * 10 - digit_value(d[k - 1]) } else { v * 10 + digit_value(d[k - 1]) };
                if w > i64::MAX {
                    Err(IntErrorKind::PosOverflow)
                } else if w < i64::MIN {
                    Err(IntErrorKind::NegOverflow)
                } else {
                    Ok(w)
                }
            },
        }
    }
}

/// `str::parse::<i64>`: an optional `+` or `-`, then decimal digits.
pub open spec fn parse_int_spec(s: Seq<char>) -> Result<i64, IntErrorKind> {
    if s.len() == 0 {
        Err(IntErrorKind::Empty)
    } else if (s[0] == '+' || s[0] == '-') && s.len() == 1 {
        Err(IntErrorKind::InvalidDigit)
    } else {
        let neg = s[0] == '-';
        let d = if s[0] == '+' || s[0] == '-' { s.skip(1) } else { s };
        match read_digits(d, neg, d.len() as int) {
            Ok(v) => Ok(v as i64),
            Err(e) => Err(e),
        }
    }
}

proof fn lemma_read_digits_range(d: Seq<char>, neg: bool, k: int)
    requires
        0 <= k,
    ensures
        read_digits(d, neg, k) matches Ok(v) ==> i64::MIN <= v <= i64::MAX,
    decreases k,
{
    if k > 0 {
        lemma_read_digits_range(d, neg, k - 1);
    }
}

/// Parses `cs[from..to]` as `str::parse::<i64>` does.
#[verifier::loop_isolation(false)]
pub fn parse_int(cs: &Vec<char>, from: usize, to: usize) -> (r: Result<i64, IntErrorKind>)
    requires
        from <= to <= cs@.len(),
    ensures
        r == parse_int_spec(cs@.subrange(from as int, to as int)),
{
    let ghost s = cs@.subrange(from as int, to as int);
    if from == to {
        return Err(IntErrorKind::Empty);
    }
    let first = cs[from];
    proof {
        assert(s[0] == first);
    }
    let signed = first == '+' || first == '-';
    if signed && to - from == 1 {
        return Err(IntErrorKind::InvalidDigit);
    }
    let neg = first == '-';
    let start = if signed { from + 1 } else { from };
    let ghost d = if signed { s.skip(1) } else { s };
    proof {
        assert(d =~= cs@.subrange(start as int, to as int));
    }
    let mut v: i64 = 0;
    let mut k = start;
    while k < to
        invariant
            start <= k <= to <= cs@.len(),
            d == cs@.subrange(start as int, to as int),
            read_digits(d, neg, k - start) == Ok::<int, IntErrorKind>(v as int),
        decreases to - k,
    {
        let c = cs[k];
        proof {
            assert(d[k - start] == c);
        }
        if !((c as u32) >= ('0' as u32) && (c as u32) <= ('9' as u32)) {
            proof {
                assert(read_digits(d, neg, k - start + 1) == Err::<int, IntErrorKind>(IntErrorKind::InvalidDigit));
                lemma_read_digits_stops(d, neg, k - start + 1, d.len() as int);
            }
            return Err(IntErrorKind::InvalidDigit);
        }
        let dv = ((c as u32) - ('0' as u32)) as i128;
        let w: i128 = if neg { (v as i128) * 10 - dv } else { (v as i128) * 10 + dv };
        if w > (i64::MAX as i128) {
            proof {
                lemma_read_digits_stops(d, neg, k - start + 1, d.len() as int);
            }
            return Err(IntErrorKind::PosOverflow);
        }
        if w < (i64::MIN as i128) {
            proof {
                lemma_read_digits_stops(d, neg, k - start + 1, d.len() as int);
            }
            return Err(IntErrorKind::NegOverflow);
        }
        v = w as i64;
        k = k + 1;
    }
    proof {
        assert(s[0] == first);
    }
    Ok(v)
}

/// Once the reading fails, it fails the same way on every longer prefix.
proof fn lemma_read_digits_stops(d: Seq<char>, neg: bool, j: int, k: int)
    requires
        0 <= j <= k,
        read_digits(d, neg, j) is Err,
    ensures
        read_digits(d, neg, k) == read_digits(d, neg, j),
    decreases k - j,
{
    if k > j {
        lemma_read_digits_stops(d, neg, j, k - 1);
    }
}

/// Pieces of `s` between occurrences of `sep`, as `str::split` yields them.
pub open spec fn split_on(s: Seq<char>, sep: char) -> Seq<Seq<char>>
    decreases s.len(),
{
    if s.len() == 0 {
        seq![Seq::empty()]
    } else {
        let p = split_on(s.drop_last(), sep);
        if s.last() == sep {
            p.push(Seq::empty())
        } else {
            p.update(p.len() - 1, p.last().push(s.last()))
        }
    }
}

/// A line without one trailing carriage return.
pub open spec fn strip_cr(l: Seq<char>) -> Seq<char> {
    if l.len() > 0 && l.last() == '\r' {
        l.drop_last()
    } else {
        l
    }
}

/// Lines of a text as `BufRead::lines` yields them: the pieces between
/// `\n`, without a final empty piece, each without one trailing `\r`.
pub open spec fn text_lines(s: Seq<char>) -> Seq<Seq<char>> {
    let p = split_on(s, '\n');
    let q = if p.last().len() == 0 { p.drop_last() } else { p };
    q.map_values(|l: Seq<char>| strip_cr(l))
}

/// The texts that bounds delimit.
pub open spec fn pieces(cs: Seq<char>, b: Seq<(usize, usize)>) -> Seq<Seq<char>> {
    b.map_values(|p: (usize, usize)| cs.subrange(p.0 as int, p.1 as int))
}

/// Every bound lies within `[from, to]`.
pub open spec fn bounds_within(b: Seq<(usize, usize)>, from: int, to: int) -> bool {
    forall|k: int| 0 <= k < b.len() ==> from <= (#[trigger] b[k]).0 <= b[k].1 <= to
}

pub proof fn lemma_split_nonempty(s: Seq<char>, sep: char)
    ensures
        split_on(s, sep).len() >= 1,
    decreases s.len(),
{
    if s.len() > 0 {
        lemma_split_nonempty(s.drop_last(), sep);
    }
}

/// Bounds of the pieces of `cs[from..to]` between occurrences of `sep`.
pub fn split_bounds(cs: &Vec<char>, from: usize, to: usize, sep: char) -> (r: Vec<(usize, usize)>)
    requires
        from <= to <= cs@.len(),
    ensures
        pieces(cs@, r@) == split_on(cs@.subrange(from as int, to as int), sep),
        bounds_within(r@, from as int, to as int),
{
    let mut done: Vec<(usize, usize)> = Vec::new();
    let mut start = from;
    let mut j = from;
    proof {
        assert(cs@.subrange(from as int, from as int) =~= Seq::<char>::empty());
        assert(pieces(cs@, done@) =~= Seq::<Seq<char>>::empty());
        assert(pieces(cs@, done@).push(cs@.subrange(start as int, j as int)) =~= split_on(
            cs@.subrange(from as int, j as int),
            sep,
        ));
    }
    while j < to
        invariant
            from <= start <= j <= to <= cs@.len(),
            bounds_within(done@, from as int, start as int),
            pieces(cs@, done@).push(cs@.subrange(start as int, j as int)) == split_on(
                cs@.subrange(from as int, j as int),
                sep,
            ),
        decreases to - j,
    {
        let ghost prev = cs@.subrange(from as int, j as int);
        let ghost next = cs@.subrange(from as int, j + 1);
        proof {
            assert(next.drop_last() =~= prev);
            assert(next.last() == cs@[j as int]);
        }
        if cs[j] == sep {
            let ghost old_done = done@;
            done.push((start, j));
            proof {
                assert(pieces(cs@, done@) =~= pieces(cs@, old_done).push(cs@.subrange(start as int, j as int)));
                assert(cs@.subrange(j + 1, j + 1) =~= Seq::<char>::empty());
            }
            start = j + 1;
        } else {
            proof {
                assert(cs@.subrange(start as int, j + 1) =~= cs@.subrange(start as int, j as int).push(cs@[j as int]));
                let p = pieces(cs@, done@).push(cs@.subrange(start as int, j as int));
                assert(p.update(p.len() - 1, p.last().push(cs@[j as int])) =~= pieces(cs@, done@).push(
                    cs@.subrange(start as int, j + 1),
                ));
            }
        }
        j = j + 1;
    }
    let ghost old_done = done@;
    done.push((start, to));
    proof {
        assert(pieces(cs@, done@) =~= pieces(cs@, old_done).push(cs@.subrange(start as int, to as int)));
    }
    done
}

/// Bounds of the lines of a text, as `BufRead::lines` yields them.
pub fn line_bounds(cs: &Vec<char>) -> (r: Vec<(usize, usize)>)
    ensures
        pieces(cs@, r@) == text_lines(cs@),
        bounds_within(r@, 0, cs@.len() as int),
{
    let n = cs.len();
    let parts = split_bounds(cs, 0, n, '\n');
    proof {
        assert(cs@.subrange(0, n as int) =~= cs@);
        lemma_split_nonempty(cs@, '\n');
    }
    let ghost p = split_on(cs@, '\n');
    let count = parts.len();
    let last = parts[count - 1];
    proof {
        assert(pieces(cs@, parts@)[count - 1] == p.last());
    }
    let keep = if last.0 == last.1 { count - 1 } else { count };
    let ghost q = if p.last().len() == 0 { p.drop_last() } else { p };
    proof {
        assert(q =~= pieces(cs@, parts@).take(keep as int));
    }
    let mut out: Vec<(usize, usize)> = Vec::new();
    let mut k: usize = 0;
    while k < keep
        invariant
            keep <= count == parts@.len(),
            bounds_within(parts@, 0, n as int),
            n == cs@.len(),
            q == pieces(cs@, parts@).take(keep as int),
            k <= keep,
            bounds_within(out@, 0, n as int),
            pieces(cs@, out@) == q.take(k as int).map_values(|l: Seq<char>| strip_cr(l)),
        decreases keep - k,
    {
        let (a, b) = parts[k];
        let ghost line = cs@.subrange(a as int, b as int);
        proof {
            assert(q[k as int] == line);
        }
        let bound = if b > a && cs[b - 1] == '\r' {
            proof {
                assert(line.last() == cs@[b - 1]);
                assert(line.drop_last() =~= cs@.subrange(a as int, b - 1));
            }
            (a, b - 1)
        } else {
            proof {
                if b > a {
                    assert(line.last() == cs@[b - 1]);
                }
            }
            (a, b)
        };
        let ghost old_out = out@;
        out.push(bound);
        proof {
            assert(pieces(cs@, out@) =~= pieces(cs@, old_out).push(strip_cr(line)));
            assert(q.take(k + 1).map_values(|l: Seq<char>| strip_cr(l)) =~= q.take(k as int).map_values(
                |l: Seq<char>| strip_cr(l),
            ).push(strip_cr(line)));
        }
        k = k + 1;
    }
    proof {
        assert(q.take(keep as int) =~= q);
    }
    out
}

} // verus!
