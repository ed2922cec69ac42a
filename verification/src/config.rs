//! The text form of a cache hierarchy: `size:lines` per level, separated by
//! commas, where a size may carry a unit (`K`, `KiB`, `KB`, ... up to `G`)
//! and a trailing `n` marks a level that is not inclusive.

use vstd::prelude::*;

verus! {

/// Whether `c` is white space: has the Unicode `White_Space` property,
/// which holds of tab, line feed, vertical tab, form feed, carriage return,
/// space, U+0085, U+00A0, U+1680, U+2000 to U+200A, U+2028, U+2029, U+202F,
/// U+205F and U+3000.
pub open spec fn is_white_space(c: char) -> bool {
    let u = c as u32;
    ||| 0x9 <= u <= 0xd
    ||| u == 0x20
    ||| u == 0x85
    ||| u == 0xa0
    ||| u == 0x1680
    ||| 0x2000 <= u <= 0x200a
    ||| u == 0x2028
    ||| u == 0x2029
    ||| u == 0x202f
    ||| u == 0x205f
    ||| u == 0x3000
}

/// Whether `c` has the Unicode `White_Space` property (what
/// `char::is_whitespace` tells).
fn is_whitespace(c: char) -> (b: bool)
    ensures
        b == is_white_space(c),
{
    let u = c as u32;
    (0x9 <= u && u <= 0xd) || u == 0x20 || u == 0x85 || u == 0xa0 || u == 0x1680 || (0x2000 <= u
        && u <= 0x200a) || u == 0x2028 || u == 0x2029 || u == 0x202f || u == 0x205f || u == 0x3000
}

/// `prefix`, then `part` in single quotes, then `suffix`.
fn quote_in(prefix: &str, part: &str, suffix: &str) -> (r: String)
    ensures
        r@ == prefix@ + seq!['\''] + part@ + seq!['\''] + suffix@,
{
    let mut r = prefix.to_owned();
    let quote = "'";
    proof {
        reveal_strlit("'");
    }
    r.append(quote);
    r.append(part);
    r.append(quote);
    r.append(suffix);
    r
}

/// Number of white-space characters at the start of `cs`.
pub open spec fn leading_white(cs: Seq<char>) -> nat
    decreases cs.len(),
{
    if cs.len() > 0 && is_white_space(cs[0]) {
        1 + leading_white(cs.drop_first())
    } else {
        0
    }
}

/// Number of white-space characters at the end of `cs`.
pub open spec fn trailing_white(cs: Seq<char>) -> nat
    decreases cs.len(),
{
    if cs.len() > 0 && is_white_space(cs.last()) {
        1 + trailing_white(cs.drop_last())
    } else {
        0
    }
}

/// `cs` without white space at either end.
pub open spec fn trim_chars(cs: Seq<char>) -> Seq<char> {
    if leading_white(cs) >= cs.len() {
        Seq::empty()
    } else {
        cs.subrange(leading_white(cs) as int, cs.len() - trailing_white(cs))
    }
}

proof fn lemma_leading_white(cs: Seq<char>, k: nat)
    requires
        k <= cs.len(),
        forall|i: int| 0 <= i < k ==> is_white_space(#[trigger] cs[i]),
        k == cs.len() || !is_white_space(cs[k as int]),
    ensures
        leading_white(cs) == k,
    decreases k,
{
    if k > 0 {
        let d = cs.drop_first();
        assert forall|i: int| 0 <= i < k - 1 implies is_white_space(#[trigger] d[i]) by {
            assert(d[i] == cs[i + 1]);
        }
        if k < cs.len() {
            assert(d[k - 1] == cs[k as int]);
        }
        lemma_leading_white(d, (k - 1) as nat);
    }
}

proof fn lemma_trailing_white(cs: Seq<char>, k: nat)
    requires
        k <= cs.len(),
        forall|i: int| cs.len() - k <= i < cs.len() ==> is_white_space(#[trigger] cs[i]),
        k == cs.len() || !is_white_space(cs[cs.len() - k - 1]),
    ensures
        trailing_white(cs) == k,
    decreases k,
{
    if k > 0 {
        let d = cs.drop_last();
        assert forall|i: int| d.len() - (k - 1) <= i < d.len() implies is_white_space(#[trigger] d[i]) by {
            assert(d[i] == cs[i]);
        }
        if k < cs.len() {
            assert(d[d.len() - (k - 1) - 1] == cs[cs.len() - k - 1]);
        }
        lemma_trailing_white(d, (k - 1) as nat);
    }
}

/// `s` without white space at either end (as `str::trim`).
pub fn trim(s: &str) -> (t: &str)
    ensures
        t@ == trim_chars(s@),
{
    let n = s.unicode_len();
    let mut start: usize = 0;
    while start < n && is_whitespace(s.get_char(start))
        invariant
            n == s@.len(),
            start <= n,
            forall|i: int| 0 <= i < start ==> is_white_space(#[trigger] s@[i]),
        decreases n - start,
    {
        start = start + 1;
    }
    proof {
        lemma_leading_white(s@, start as nat);
    }
    if start == n {
        return s.substring_char(n, n);
    }
    let mut end: usize = n;
    while end > start && is_whitespace(s.get_char(end - 1))
        invariant
            n == s@.len(),
            start < n,
            !is_white_space(s@[start as int]),
            start <= end <= n,
            forall|i: int| end <= i < n ==> is_white_space(#[trigger] s@[i]),
        decreases end,
    {
        end = end - 1;
    }
    proof {
        if end == start {
            assert(false);
        }
        lemma_trailing_white(s@, (n - end) as nat);
    }
    s.substring_char(start, end)
}

/// `c` is an ASCII decimal digit.
pub open spec fn is_digit(c: char) -> bool {
    '0' <= c <= '9'
}

/// The number that the decimal digits `ds` spell.
pub open spec fn decimal(ds: Seq<char>) -> nat
    decreases ds.len(),
{
    if ds.len() == 0 {
        0
    } else {
        decimal(ds.drop_last()) * 10 + (ds.last() as nat - '0' as nat) as nat
    }
}

/// The digits of an unsigned number's text: without one leading `+`.
pub open spec fn unsigned_digits(cs: Seq<char>) -> Seq<char> {
    if cs.len() > 0 && cs[0] == '+' {
        cs.drop_first()
    } else {
        cs
    }
}

/// `cs` is the text of a `usize` (as `usize::from_str` accepts it): an
/// optional `+`, then one decimal digit or more, for a value that fits.
pub open spec fn usize_text_ok(cs: Seq<char>) -> bool {
    let ds = unsigned_digits(cs);
    &&& ds.len() > 0
    &&& forall|i: int| 0 <= i < ds.len() ==> is_digit(#[trigger] ds[i])
    &&& decimal(ds) <= usize::MAX
}

proof fn lemma_decimal_grows(ds: Seq<char>, k: int)
    requires
        0 <= k <= ds.len(),
        forall|i: int| 0 <= i < ds.len() ==> is_digit(#[trigger] ds[i]),
    ensures
        decimal(ds.subrange(0, k)) <= decimal(ds),
    decreases ds.len() - k,
{
    if k < ds.len() {
        let p = ds.subrange(0, k + 1);
        assert(p.drop_last() =~= ds.subrange(0, k));
        assert(is_digit(p.last()));
        lemma_decimal_grows(ds, k + 1);
    } else {
        assert(ds.subrange(0, k) =~= ds);
    }
}

/// The `usize` that `s` spells (as `usize::from_str`), or `None`.
pub fn parse_usize(s: &str) -> (r: Option<usize>)
    ensures
        r == if usize_text_ok(s@) {
            Some(decimal(unsigned_digits(s@)) as usize)
        } else {
            None::<usize>
        },
{
    let n = s.unicode_len();
    let mut i: usize = 0;
    if n > 0 && s.get_char(0) == '+' {
        i = 1;
    }
    let ghost ds = unsigned_digits(s@);
    proof {
        assert(ds =~= s@.subrange(i as int, n as int));
    }
    if i == n {
        return None;
    }
    let first = i;
    let mut k: usize = i;
    while k < n
        invariant
            n == s@.len(),
            first <= k <= n,
            ds == unsigned_digits(s@),
            ds =~= s@.subrange(first as int, n as int),
            forall|j: int| first <= j < k ==> is_digit(#[trigger] s@[j]),
        decreases n - k,
    {
        let c = s.get_char(k);
        if !('0' <= c && c <= '9') {
            proof {
                assert(ds[k - first] == s@[k as int]);
                assert(!is_digit(ds[k - first]));
                assert(!usize_text_ok(s@));
            }
            return None;
        }
        k = k + 1;
    }
    proof {
        assert forall|j: int| 0 <= j < ds.len() implies is_digit(#[trigger] ds[j]) by {
            assert(ds[j] == s@[first + j]);
        }
    }
    let mut v: usize = 0;
    let mut k: usize = first;
    while k < n
        invariant
            n == s@.len(),
            first < n,
            first <= k <= n,
            ds == unsigned_digits(s@),
            ds =~= s@.subrange(first as int, n as int),
            forall|j: int| 0 <= j < ds.len() ==> is_digit(#[trigger] ds[j]),
            v == decimal(ds.subrange(0, k - first)),
        decreases n - k,
    {
        let c = s.get_char(k);
        proof {
            assert(c == ds[k - first]);
            assert(is_digit(c));
        }
        let d = (c as u32 - '0' as u32) as usize;
        proof {
            let p = ds.subrange(0, k - first + 1);
            assert(p.drop_last() =~= ds.subrange(0, k - first));
            assert(p.last() == c);
            assert(decimal(p) == v * 10 + d);
        }
        if v > (usize::MAX - d) / 10 {
            proof {
                assert(v * 10 + d > usize::MAX) by (nonlinear_arith)
                    requires
                        v > (usize::MAX - d) / 10,
                        d <= 9,
                ;
                lemma_decimal_grows(ds, k - first + 1);
                assert(decimal(ds.subrange(0, k - first + 1)) > usize::MAX);
                assert(!usize_text_ok(s@));
            }
            return None;
        }
        proof {
            assert(v * 10 + d <= usize::MAX) by (nonlinear_arith)
                requires
                    v <= (usize::MAX - d) / 10,
                    d <= 9,
            ;
        }
        v = v * 10 + d;
        k = k + 1;
    }
    proof {
        assert(ds.subrange(0, n - first) =~= ds);
    }
    Some(v)
}

/// The unit at the end of a size's text: how many characters it takes and
/// the factor it stands for (`KiB`, `MiB`, `GiB` powers of two; `KB`, `MB`,
/// `GB` powers of ten; `B` one; `K`, `M`, `G` powers of two; the unit letter
/// in either case).
pub open spec fn size_unit(t: Seq<char>) -> (nat, nat) {
    let n = t.len();
    if n >= 3 && (t[n - 3] == 'K' || t[n - 3] == 'k') && t[n - 2] == 'i' && t[n - 1] == 'B' {
        (3, 1024)
    } else if n >= 3 && (t[n - 3] == 'M' || t[n - 3] == 'm') && t[n - 2] == 'i' && t[n - 1] == 'B' {
        (3, 1048576)
    } else if n >= 3 && (t[n - 3] == 'G' || t[n - 3] == 'g') && t[n - 2] == 'i' && t[n - 1] == 'B' {
        (3, 1073741824)
    } else if n >= 2 && (t[n - 2] == 'K' || t[n - 2] == 'k') && t[n - 1] == 'B' {
        (2, 1000)
    } else if n >= 2 && (t[n - 2] == 'M' || t[n - 2] == 'm') && t[n - 1] == 'B' {
        (2, 1000000)
    } else if n >= 2 && (t[n - 2] == 'G' || t[n - 2] == 'g') && t[n - 1] == 'B' {
        (2, 1000000000)
    } else if n >= 1 && t[n - 1] == 'B' {
        (1, 1)
    } else if n >= 1 && (t[n - 1] == 'K' || t[n - 1] == 'k') {
        (1, 1024)
    } else if n >= 1 && (t[n - 1] == 'M' || t[n - 1] == 'm') {
        (1, 1048576)
    } else if n >= 1 && (t[n - 1] == 'G' || t[n - 1] == 'g') {
        (1, 1073741824)
    } else {
        (0, 1)
    }
}

/// The unit at the end of `t` (see `size_unit`).
fn unit_of(t: &str) -> (r: (usize, usize))
    ensures
        r.0 == size_unit(t@).0,
        r.1 == size_unit(t@).1,
        r.0 <= t@.len(),
{
    let n = t.unicode_len();
    if n >= 3 {
        let a = t.get_char(n - 3);
        let b = t.get_char(n - 2);
        let c = t.get_char(n - 1);
        if b == 'i' && c == 'B' {
            if a == 'K' || a == 'k' {
                return (3, 1024);
            } else if a == 'M' || a == 'm' {
                return (3, 1048576);
            } else if a == 'G' || a == 'g' {
                return (3, 1073741824);
            }
        }
    }
    if n >= 2 {
        let a = t.get_char(n - 2);
        let b = t.get_char(n - 1);
        if b == 'B' {
            if a == 'K' || a == 'k' {
                return (2, 1000);
            } else if a == 'M' || a == 'm' {
                return (2, 1000000);
            } else if a == 'G' || a == 'g' {
                return (2, 1000000000);
            }
        }
    }
    if n >= 1 {
        let a = t.get_char(n - 1);
        if a == 'B' {
            return (1, 1);
        } else if a == 'K' || a == 'k' {
            return (1, 1024);
        } else if a == 'M' || a == 'm' {
            return (1, 1048576);
        } else if a == 'G' || a == 'g' {
            return (1, 1073741824);
        }
    }
    (0, 1)
}

/// The number part of a size's text: the trimmed text without its unit.
pub open spec fn size_number(s: Seq<char>) -> Seq<char> {
    let t = trim_chars(s);
    t.subrange(0, t.len() - size_unit(t).0)
}

/// What a size's text stands for: the number times the unit's factor, or
/// the message that rejects the text.
pub open spec fn size_result(s: Seq<char>) -> Result<nat, Seq<char>> {
    let num = size_number(s);
    let factor = size_unit(trim_chars(s)).1;
    if !usize_text_ok(num) {
        Err("Invalid number: "@ + seq!['\''] + num + seq!['\''] + ""@)
    } else if decimal(unsigned_digits(num)) * factor > usize::MAX {
        Err("Size out of range: "@ + seq!['\''] + num + seq!['\''] + ""@)
    } else {
        Ok(decimal(unsigned_digits(num)) * factor)
    }
}

/// The number of bytes that a size's text stands for, such as `64`, `4K`,
/// `4KiB` or `1MB` (see `size_result`).
pub fn parse_size(s: &str) -> (r: Result<usize, String>)
    ensures
        match r {
            Ok(v) => size_result(s@) == Ok::<nat, Seq<char>>(v as nat),
            Err(e) => size_result(s@) == Err::<nat, Seq<char>>(e@),
        },
{
    let t = trim(s);
    let (unit_len, multiplier) = unit_of(t);
    let n = t.unicode_len();
    let number_part = t.substring_char(0, n - unit_len);
    match parse_usize(number_part) {
        None => Err(quote_in("Invalid number: ", number_part, "")),
        Some(num) => {
            if num > usize::MAX / multiplier {
                proof {
                    assert(num * multiplier > usize::MAX) by (nonlinear_arith)
                        requires
                            num > usize::MAX / multiplier,
                            multiplier > 0,
                    ;
                }
                Err(quote_in("Size out of range: ", number_part, ""))
            } else {
                proof {
                    assert(num * multiplier <= usize::MAX) by (nonlinear_arith)
                        requires
                            num <= usize::MAX / multiplier,
                            multiplier > 0,
                    ;
                }
                Ok(num * multiplier)
            }
        },
    }
}


/// The pieces of `cs` between the separators `sep` (as `str::split`): one
/// more piece than there are separators.
pub open spec fn split_chars(cs: Seq<char>, sep: char) -> Seq<Seq<char>>
    decreases cs.len(),
{
    if cs.len() == 0 {
        seq![Seq::empty()]
    } else {
        let rest = split_chars(cs.drop_first(), sep);
        if cs[0] == sep {
            seq![Seq::empty()] + rest
        } else {
            rest.update(0, seq![cs[0]] + rest[0])
        }
    }
}

proof fn lemma_split_nonempty(cs: Seq<char>, sep: char)
    ensures
        split_chars(cs, sep).len() >= 1,
    decreases cs.len(),
{
    if cs.len() > 0 {
        lemma_split_nonempty(cs.drop_first(), sep);
    }
}

/// Characters without a separator join the first piece of what follows.
proof fn lemma_split_prefix(cs: Seq<char>, sep: char, k: int)
    requires
        0 <= k <= cs.len(),
        forall|i: int| 0 <= i < k ==> #[trigger] cs[i] != sep,
    ensures
        split_chars(cs, sep) == split_chars(cs.subrange(k, cs.len() as int), sep).update(
            0,
            cs.subrange(0, k) + split_chars(cs.subrange(k, cs.len() as int), sep)[0],
        ),
    decreases k,
{
    let tail = cs.subrange(k, cs.len() as int);
    lemma_split_nonempty(tail, sep);
    let st = split_chars(tail, sep);
    if k == 0 {
        assert(cs.subrange(0, 0) + st[0] =~= st[0]);
        assert(tail =~= cs);
        assert(st.update(0, st[0]) =~= st);
    } else {
        let d = cs.drop_first();
        assert forall|i: int| 0 <= i < k - 1 implies #[trigger] d[i] != sep by {
            assert(d[i] == cs[i + 1]);
        }
        lemma_split_prefix(d, sep, k - 1);
        assert(d.subrange(k - 1, d.len() as int) =~= tail);
        assert(seq![cs[0]] + (d.subrange(0, k - 1) + st[0]) =~= cs.subrange(0, k) + st[0]);
        assert(split_chars(d, sep) == st.update(0, d.subrange(0, k - 1) + st[0]));
        assert(split_chars(cs, sep) =~= st.update(0, cs.subrange(0, k) + st[0]));
    }
}

/// The pieces of `s` between the separators `sep` (as `str::split`).
pub fn split_str(s: &str, sep: char) -> (parts: Vec<&str>)
    ensures
        parts@.len() == split_chars(s@, sep).len(),
        forall|i: int| 0 <= i < parts@.len() ==> (#[trigger] parts@[i])@ == split_chars(s@, sep)[i],
{
    let n = s.unicode_len();
    let mut parts: Vec<&str> = Vec::new();
    let mut start: usize = 0;
    let mut j: usize = 0;
    let ghost mut pv: Seq<Seq<char>> = Seq::empty();
    proof {
        assert(s@.subrange(0, n as int) =~= s@);
    }
    while j < n
        invariant
            n == s@.len(),
            start <= j <= n,
            forall|i: int| start <= i < j ==> #[trigger] s@[i] != sep,
            parts@.len() == pv.len(),
            forall|i: int| 0 <= i < parts@.len() ==> (#[trigger] parts@[i])@ == pv[i],
            split_chars(s@, sep) == pv + split_chars(s@.subrange(start as int, n as int), sep),
        decreases n - j,
    {
        if s.get_char(j) == sep {
            let piece = s.substring_char(start, j);
            proof {
                let cs = s@.subrange(start as int, n as int);
                let k = j - start;
                assert forall|i: int| 0 <= i < k implies #[trigger] cs[i] != sep by {
                    assert(cs[i] == s@[start + i]);
                }
                lemma_split_prefix(cs, sep, k);
                let tail = cs.subrange(k, cs.len() as int);
                assert(tail =~= s@.subrange(j as int, n as int));
                assert(tail[0] == sep);
                assert(tail.drop_first() =~= s@.subrange(j + 1, n as int));
                let rest = split_chars(s@.subrange(j + 1, n as int), sep);
                assert(split_chars(tail, sep) == seq![Seq::<char>::empty()] + rest);
                assert(cs.subrange(0, k) =~= piece@);
                assert(split_chars(cs, sep) =~= seq![piece@] + rest);
                assert(pv + (seq![piece@] + rest) =~= pv.push(piece@) + rest);
                pv = pv.push(piece@);
            }
            parts.push(piece);
            start = j + 1;
        }
        j = j + 1;
    }
    let piece = s.substring_char(start, n);
    proof {
        let cs = s@.subrange(start as int, n as int);
        let k = n - start;
        assert forall|i: int| 0 <= i < k implies #[trigger] cs[i] != sep by {
            assert(cs[i] == s@[start + i]);
        }
        lemma_split_prefix(cs, sep, k);
        assert(cs.subrange(k, cs.len() as int) =~= Seq::<char>::empty());
        assert(split_chars(Seq::<char>::empty(), sep) == seq![Seq::<char>::empty()]);
        assert(cs.subrange(0, k) + Seq::<char>::empty() =~= piece@);
        assert(split_chars(cs, sep) =~= seq![piece@]);
        pv = pv.push(piece@);
    }
    parts.push(piece);
    parts
}

/// One level of a hierarchy as written: the line size in bytes, the number
/// of lines, and whether the level is inclusive.
#[derive(Debug, Clone)]
pub struct CacheSpec {
    pub line_size: usize,
    pub num_lines: usize,
    pub inclusive: bool,
}

/// The levels of a hierarchy, first to last.
#[derive(Debug, Clone)]
pub struct CacheSpecs {
    pub specs: Vec<CacheSpec>,
}

/// What a level's text `size:lines` (with an optional trailing `n`, for a
/// level that is not inclusive) stands for: line size, number of lines, and
/// inclusiveness, or the message that rejects the text.
pub open spec fn cache_spec_result(s: Seq<char>) -> Result<(nat, nat, bool), Seq<char>> {
    let inclusive = !(s.len() > 0 && s.last() == 'n');
    let body = if inclusive {
        s
    } else {
        s.drop_last()
    };
    let parts = split_chars(body, ':');
    if parts.len() != 2 {
        Err("Invalid cache spec format: "@ + seq!['\''] + body + seq!['\''] + ". Expected 'size:lines'"@)
    } else {
        match size_result(trim_chars(parts[0])) {
            Err(e) => Err(e),
            Ok(line_size) => if !usize_text_ok(trim_chars(parts[1])) {
                Err("Invalid number of lines: "@ + seq!['\''] + parts[1] + seq!['\''] + ""@)
            } else {
                Ok((line_size, decimal(unsigned_digits(trim_chars(parts[1]))), inclusive))
            },
        }
    }
}

/// A level's text (see `cache_spec_result`).
pub fn parse_cache_spec(s: &str) -> (r: Result<CacheSpec, String>)
    ensures
        match r {
            Ok(c) => cache_spec_result(s@) == Ok::<(nat, nat, bool), Seq<char>>(
                (c.line_size as nat, c.num_lines as nat, c.inclusive),
            ),
            Err(e) => cache_spec_result(s@) == Err::<(nat, nat, bool), Seq<char>>(e@),
        },
{
    let n = s.unicode_len();
    let mut body = s;
    let mut inclusive = true;
    if n > 0 && s.get_char(n - 1) == 'n' {
        body = s.substring_char(0, n - 1);
        inclusive = false;
        proof {
            assert(body@ =~= s@.drop_last());
        }
    }
    let parts = split_str(body, ':');
    if parts.len() != 2 {
        return Err(quote_in("Invalid cache spec format: ", body, ". Expected 'size:lines'"));
    }
    let line_size = match parse_size(trim(parts[0])) {
        Ok(v) => v,
        Err(e) => {
            return Err(e);
        },
    };
    let num_lines = match parse_usize(trim(parts[1])) {
        Some(v) => v,
        None => {
            return Err(quote_in("Invalid number of lines: ", parts[1], ""));
        },
    };
    Ok(CacheSpec { line_size, num_lines, inclusive })
}

/// The levels that the texts `pieces` stand for, each trimmed, or the
/// message that rejects the first piece that fails.
pub open spec fn collect_specs(pieces: Seq<Seq<char>>) -> Result<Seq<(nat, nat, bool)>, Seq<char>>
    decreases pieces.len(),
{
    if pieces.len() == 0 {
        Ok(Seq::empty())
    } else {
        match collect_specs(pieces.drop_last()) {
            Err(e) => Err(e),
            Ok(v) => match cache_spec_result(trim_chars(pieces.last())) {
                Err(e) => Err(e),
                Ok(x) => Ok(v.push(x)),
            },
        }
    }
}

/// What a hierarchy's text, levels separated by commas, stands for.
pub open spec fn specs_result(s: Seq<char>) -> Result<Seq<(nat, nat, bool)>, Seq<char>> {
    match collect_specs(split_chars(s, ',')) {
        Err(e) => Err(e),
        Ok(v) => if v.len() == 0 {
            Err("At least one cache specification is required"@)
        } else {
            Ok(v)
        },
    }
}

/// A spec's line size, number of lines and inclusiveness.
pub open spec fn spec_fields(c: CacheSpec) -> (nat, nat, bool) {
    (c.line_size as nat, c.num_lines as nat, c.inclusive)
}

/// A hierarchy's text (see `specs_result`).
pub fn parse_cache_specs(s: &str) -> (r: Result<CacheSpecs, String>)
    ensures
        match r {
            Ok(c) => specs_result(s@) == Ok::<Seq<(nat, nat, bool)>, Seq<char>>(
                c.specs@.map_values(|x: CacheSpec| spec_fields(x)),
            ),
            Err(e) => specs_result(s@) == Err::<Seq<(nat, nat, bool)>, Seq<char>>(e@),
        },
{
    let pieces = split_str(s, ',');
    let ghost pv = split_chars(s@, ',');
    let mut specs: Vec<CacheSpec> = Vec::new();
    let mut i: usize = 0;
    proof {
        assert(pv.subrange(0, 0) =~= Seq::<Seq<char>>::empty());
        assert(specs@.map_values(|x: CacheSpec| spec_fields(x)) =~= Seq::<(nat, nat, bool)>::empty());
    }
    while i < pieces.len()
        invariant
            pv == split_chars(s@, ','),
            pieces@.len() == pv.len(),
            forall|k: int| 0 <= k < pieces@.len() ==> (#[trigger] pieces@[k])@ == pv[k],
            i <= pieces@.len(),
            collect_specs(pv.subrange(0, i as int)) == Ok::<Seq<(nat, nat, bool)>, Seq<char>>(
                specs@.map_values(|x: CacheSpec| spec_fields(x)),
            ),
        decreases pieces@.len() - i,
    {
        let piece = trim(pieces[i]);
        let ghost sub = pv.subrange(0, i + 1);
        proof {
            assert(sub.drop_last() =~= pv.subrange(0, i as int));
            assert(sub.last() == pv[i as int]);
        }
        match parse_cache_spec(piece) {
            Ok(c) => {
                let ghost before = specs@;
                specs.push(c);
                proof {
                    assert(specs@.map_values(|x: CacheSpec| spec_fields(x)) =~= before.map_values(
                        |x: CacheSpec| spec_fields(x),
                    ).push(spec_fields(c)));
                }
            },
            Err(e) => {
                proof {
                    lemma_collect_err_extends(pv, i as int + 1, e@);
                }
                return Err(e);
            },
        }
        i = i + 1;
    }
    proof {
        assert(pv.subrange(0, i as int) =~= pv);
    }
    if specs.len() == 0 {
        return Err("At least one cache specification is required".to_owned());
    }
    Ok(CacheSpecs { specs })
}

/// Once a piece fails, collecting more pieces fails with its message.
proof fn lemma_collect_err_extends(pv: Seq<Seq<char>>, k: int, e: Seq<char>)
    requires
        0 <= k <= pv.len(),
        collect_specs(pv.subrange(0, k)) == Err::<Seq<(nat, nat, bool)>, Seq<char>>(e),
    ensures
        collect_specs(pv) == Err::<Seq<(nat, nat, bool)>, Seq<char>>(e),
    decreases pv.len() - k,
{
    if k < pv.len() {
        let sub = pv.subrange(0, k + 1);
        assert(sub.drop_last() =~= pv.subrange(0, k));
        lemma_collect_err_extends(pv, k + 1, e);
    } else {
        assert(pv.subrange(0, k) =~= pv);
    }
}

impl core::str::FromStr for CacheSpec {
    type Err = String;

    fn from_str(s: &str) -> (r: Result<CacheSpec, String>)
        ensures
            match r {
                Ok(c) => cache_spec_result(s@) == Ok::<(nat, nat, bool), Seq<char>>(
                    (c.line_size as nat, c.num_lines as nat, c.inclusive),
                ),
                Err(e) => cache_spec_result(s@) == Err::<(nat, nat, bool), Seq<char>>(e@),
            },
    {
        parse_cache_spec(s)
    }
}

impl core::str::FromStr for CacheSpecs {
    type Err = String;

    fn from_str(s: &str) -> (r: Result<CacheSpecs, String>)
        ensures
            match r {
                Ok(c) => specs_result(s@) == Ok::<Seq<(nat, nat, bool)>, Seq<char>>(
                    c.specs@.map_values(|x: CacheSpec| spec_fields(x)),
                ),
                Err(e) => specs_result(s@) == Err::<Seq<(nat, nat, bool)>, Seq<char>>(e@),
            },
    {
        parse_cache_specs(s)
    }
}

} // verus!
