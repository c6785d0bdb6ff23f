use vstd::prelude::*;
use vstd::string::*;

verus! {

/// Index of the first occurrence of `c` in `s`, or -1 when `c` is absent.
pub open spec fn find_char(s: Seq<char>, c: char) -> int
    decreases s.len(),
{
    if s.len() == 0 {
        -1
    } else if s[0] == c {
        0
    } else {
        let r = find_char(s.drop_first(), c);
        if r < 0 {
            -1
        } else {
            r + 1
        }
    }
}

/// `find_char` answers -1 or the first matching index.
pub proof fn lemma_find_char_is(s: Seq<char>, c: char, k: int)
    requires
        0 <= k <= s.len(),
        forall|t: int| 0 <= t < k ==> s[t] != c,
        k == s.len() || s[k] == c,
    ensures
        find_char(s, c) == if k == s.len() {
            -1int
        } else {
            k
        },
    decreases s.len(),
{
    if s.len() > 0 && s[0] != c {
        assert(k >= 1);
        assert forall|t: int| 0 <= t < k - 1 implies s.drop_first()[t] != c by {
            assert(s.drop_first()[t] == s[t + 1]);
        }
        if k - 1 < s.drop_first().len() {
            assert(s.drop_first()[k - 1] == s[k]);
        }
        lemma_find_char_is(s.drop_first(), c, k - 1);
    }
}

/// `find_char` stays within bounds and, when non-negative, points at `c`.
pub proof fn lemma_find_char_props(s: Seq<char>, c: char)
    ensures
        -1 <= find_char(s, c) < s.len(),
        find_char(s, c) >= 0 ==> s[find_char(s, c)] == c,
    decreases s.len(),
{
    if s.len() > 0 && s[0] != c {
        lemma_find_char_props(s.drop_first(), c);
        if find_char(s.drop_first(), c) >= 0 {
            assert(s.drop_first()[find_char(s.drop_first(), c)] == s[find_char(s, c)]);
        }
    }
}

/// Drops one trailing carriage return, as a line ending of the form `\r\n`
/// leaves one on the segment before the newline.
pub open spec fn strip_cr(l: Seq<char>) -> Seq<char> {
    if l.len() > 0 && l.last() == '\r' {
        l.drop_last()
    } else {
        l
    }
}

/// The lines of a text: segments between newlines, each stripped of one
/// trailing carriage return, with nothing after a final newline.
pub open spec fn split_lines(s: Seq<char>) -> Seq<Seq<char>>
    decreases s.len(),
    via split_lines_decreases
{
    if s.len() == 0 {
        seq![]
    } else {
        let i = find_char(s, '\n');
        if i < 0 {
            seq![s]
        } else {
            seq![strip_cr(s.take(i))] + split_lines(s.skip(i + 1))
        }
    }
}

#[via_fn]
proof fn split_lines_decreases(s: Seq<char>) {
    lemma_find_char_props(s, '\n');
}

/// One character of decimal text.
pub open spec fn is_digit(c: char) -> bool {
    48 <= c as int <= 57
}

/// A decimal numeral: at least one character, all of them digits.
pub open spec fn all_digits(s: Seq<char>) -> bool {
    forall|t: int| 0 <= t < s.len() ==> is_digit(#[trigger] s[t])
}

/// The value of a decimal numeral, most significant digit first.
pub open spec fn digits_val(s: Seq<char>) -> int
    decreases s.len(),
{
    if s.len() == 0 {
        0
    } else {
        digits_val(s.drop_last()) * 10 + (s.last() as int - 48)
    }
}

/// The occurrence count on a record: base-10, non-negative, and small enough
/// to store. Anything else makes the record malformed.
pub open spec fn parse_count(s: Seq<char>) -> Option<u64> {
    if s.len() >= 1 && all_digits(s) && digits_val(s) <= u64::MAX {
        Some(digits_val(s) as u64)
    } else {
        None
    }
}

/// One record of a lookup page: `SUFFIX:COUNT`, split at the first colon.
pub open spec fn parse_line(l: Seq<char>) -> Option<(Seq<char>, u64)> {
    let i = find_char(l, ':');
    if i < 0 {
        None
    } else {
        match parse_count(l.skip(i + 1)) {
            Some(c) => Some((l.take(i), c)),
            None => None,
        }
    }
}

/// All records of a page, in page order; `None` as soon as any line is
/// malformed.
pub open spec fn parse_lines(ls: Seq<Seq<char>>) -> Option<Seq<(Seq<char>, u64)>>
    decreases ls.len(),
{
    if ls.len() == 0 {
        Some(seq![])
    } else {
        match parse_line(ls[0]) {
            Some(e) => match parse_lines(ls.drop_first()) {
                Some(rest) => Some(seq![e] + rest),
                None => None,
            },
            None => None,
        }
    }
}

/// What a whole lookup page means: its lines, each parsed as a record.
pub open spec fn parse_page(s: Seq<char>) -> Option<Seq<(Seq<char>, u64)>> {
    parse_lines(split_lines(s))
}

/// The mathematical value of a sequence of (Suffix, count) records.
pub open spec fn records_view(s: Seq<(String, u64)>) -> Seq<(Seq<char>, u64)> {
    s.map_values(|p: (String, u64)| (p.0@, p.1))
}

/// Copies the characters of a string into a vector, for indexed scanning.
fn chars_of(s: &str) -> (v: Vec<char>)
    ensures
        v@ == s@,
{
    let n = s.unicode_len();
    let mut v: Vec<char> = Vec::new();
    while v.len() < n
        invariant
            v@.len() <= n,
            n == s@.len(),
            v@ =~= s@.take(v@.len() as int),
        decreases n - v@.len(),
    {
        let i = v.len();
        v.push(s.get_char(i));
        proof {
            assert(v@ =~= s@.take(v@.len() as int));
        }
    }
    proof {
        assert(s@.take(s@.len() as int) =~= s@);
    }
    v
}

/// Finds the first occurrence of `c` at or after `from`.
fn scan_char(v: &Vec<char>, from: usize, c: char) -> (r: usize)
    requires
        from <= v@.len(),
    ensures
        from <= r <= v@.len(),
        forall|t: int| from <= t < r ==> v@[t] != c,
        r == v@.len() || v@[r as int] == c,
{
    let mut r = from;
    while r < v.len()
        invariant
            from <= r <= v@.len(),
            forall|t: int| from <= t < r ==> v@[t] != c,
        decreases v@.len() - r,
    {
        if v[r] == c {
            return r;
        }
        r = r + 1;
    }
    r
}

/// A numeral no longer than its whole is worth no more than the whole.
proof fn lemma_digits_val_mono(s: Seq<char>, k: int)
    requires
        all_digits(s),
        0 <= k <= s.len(),
    ensures
        0 <= digits_val(s.take(k)) <= digits_val(s),
    decreases s.len() - k,
{
    if k == s.len() {
        assert(s.take(k) =~= s);
        lemma_digits_val_nonneg(s);
    } else {
        lemma_digits_val_mono(s, k + 1);
        lemma_digits_val_step(s, k);
        lemma_digits_val_nonneg(s.take(k));
        assert(is_digit(s[k]));
    }
}

/// A numeral's value is never negative.
proof fn lemma_digits_val_nonneg(s: Seq<char>)
    requires
        all_digits(s),
    ensures
        digits_val(s) >= 0,
    decreases s.len(),
{
    if s.len() > 0 {
        assert(all_digits(s.drop_last()));
        lemma_digits_val_nonneg(s.drop_last());
        assert(is_digit(s.last()));
    }
}

/// Reading one more digit multiplies by ten and adds the digit.
proof fn lemma_digits_val_step(s: Seq<char>, k: int)
    requires
        0 <= k < s.len(),
    ensures
        digits_val(s.take(k + 1)) == digits_val(s.take(k)) * 10 + (s[k] as int - 48),
{
    assert(s.take(k + 1).drop_last() =~= s.take(k));
    assert(s.take(k + 1).last() == s[k]);
}

/// Parses the count text between `from` and `to`.
fn parse_count_exec(v: &Vec<char>, from: usize, to: usize) -> (r: Option<u64>)
    requires
        from <= to <= v@.len(),
    ensures
        r == parse_count(v@.subrange(from as int, to as int)),
{
    let ghost s = v@.subrange(from as int, to as int);
    if from == to {
        return None;
    }
    let mut val: u64 = 0;
    let mut i = from;
    while i < to
        invariant
            from <= i <= to <= v@.len(),
            s == v@.subrange(from as int, to as int),
            all_digits(s.take(i - from)),
            val == digits_val(s.take(i - from)),
        decreases to - i,
    {
        let c = v[i];
        proof {
            assert(s[i - from] == v@[i as int]);
        }
        if c < '0' || c > '9' {
            proof {
                assert(!is_digit(s[i - from]));
            }
            return None;
        }
        let d = (c as u64) - 48;
        proof {
            assert(is_digit(s[i - from]));
            assert(all_digits(s.take(i - from + 1)));
            lemma_digits_val_step(s, i - from);
        }
        if val > (u64::MAX - d) / 10 {
            proof {
                assert(val * 10 + d > u64::MAX) by (nonlinear_arith)
                    requires
                        val > (u64::MAX - d) / 10,
                        d <= 9,
                ;
                if all_digits(s) {
                    lemma_digits_val_mono(s, i - from + 1);
                    assert(digits_val(s) >= digits_val(s.take(i - from + 1)));
                    assert(digits_val(s) > u64::MAX);
                }
            }
            return None;
        }
        val = val * 10 + d;
        i = i + 1;
    }
    proof {
        assert(s.take(to - from) =~= s);
    }
    Some(val)
}

/// Parses one lookup page: newline-separated `SUFFIX:COUNT` records, the
/// suffix any text up to the first colon, the count a base-10 non-negative
/// integer. `None` exactly when some line lacks a colon or its count is not
/// such an integer (or overflows the count type): a malformed page.
#[verifier::loop_isolation(false)]
#[verifier::rlimit(100)]
pub fn pwned_suffixes(page: &str) -> (r: Option<Vec<(String, u64)>>)
    ensures
        r is Some <==> parse_page(page@) is Some,
        r is Some ==> records_view(r->0@) == parse_page(page@)->0,
{
    let s = page;
    let v = chars_of(s);
    let n = v.len();
    let mut out: Vec<(String, u64)> = Vec::new();
    let mut start: usize = 0;
    proof {
        assert(v@.skip(0) =~= v@);
        assert(records_view(out@) =~= Seq::<(Seq<char>, u64)>::empty());
        if parse_lines(split_lines(v@)) is Some {
            assert(records_view(out@) + parse_lines(split_lines(v@))->0 =~= parse_lines(
                split_lines(v@),
            )->0);
        }
    }
    while start < n
        invariant
            start <= n,
            n == v@.len(),
            v@ == s@,
            ({
                let rest = parse_lines(split_lines(v@.skip(start as int)));
                &&& (parse_page(s@) is Some <==> rest is Some)
                &&& (rest is Some ==> parse_page(s@)->0 == records_view(out@) + rest->0)
            }),
        decreases n - start,
    {
        let ghost f = v@.skip(start as int);
        let nl = scan_char(&v, start, '\n');
        let line_end = if nl < n && nl > start && v[nl - 1] == '\r' {
            nl - 1
        } else {
            nl
        };
        let ghost line = v@.subrange(start as int, line_end as int);
        proof {
            assert forall|t: int| 0 <= t < nl - start implies f[t] != '\n' by {
                assert(f[t] == v@[start + t]);
            }
            if nl < n {
                assert(f[nl - start] == v@[nl as int]);
            }
            lemma_find_char_is(f, '\n', nl - start);
            if nl < n {
                // A newline terminates this segment; the line is the segment
                // with one trailing carriage return removed.
                assert(f.take(nl - start) =~= v@.subrange(start as int, nl as int));
                assert(strip_cr(f.take(nl - start)) =~= line);
                assert(split_lines(f) == seq![line] + split_lines(f.skip(nl - start + 1)));
                assert(split_lines(f)[0] == line);
                assert(split_lines(f).drop_first() =~= split_lines(f.skip(nl - start + 1)));
            } else {
                assert(f =~= line);
                assert(split_lines(f) == seq![line]);
                assert(split_lines(f)[0] == line);
                assert(split_lines(f).drop_first() =~= Seq::<Seq<char>>::empty());
            }
        }
        let colon = scan_char_to(&v, start, line_end, ':');
        if colon == line_end {
            proof {
                assert forall|t: int| 0 <= t < line.len() implies line[t] != ':' by {
                    assert(line[t] == v@[start + t]);
                }
                lemma_find_char_is(line, ':', line.len() as int);
                assert(parse_line(line) is None);
            }
            return None;
        }
        proof {
            assert forall|t: int| 0 <= t < colon - start implies line[t] != ':' by {
                assert(line[t] == v@[start + t]);
            }
            assert(line[colon - start] == v@[colon as int]);
            lemma_find_char_is(line, ':', colon - start);
        }
        let count = parse_count_exec(&v, colon + 1, line_end);
        proof {
            assert(v@.subrange(colon + 1, line_end as int) =~= line.skip(colon - start + 1));
        }
        match count {
            None => {
                proof {
                    assert(parse_line(line) is None);
                }
                return None;
            },
            Some(cnt) => {
                let suffix = s.substring_char(start, colon).to_owned();
                let ghost old_out = out@;
                out.push((suffix, cnt));
                proof {
                    assert(suffix@ =~= line.take(colon - start));
                    assert(parse_line(line) == Some::<(Seq<char>, u64)>((
                        line.take(colon - start),
                        cnt,
                    )));
                    assert forall|t: int| 0 <= t < records_view(out@).len() implies records_view(
                        out@,
                    )[t] == records_view(old_out).push((suffix@, cnt))[t] by {
                        if t < old_out.len() {
                            assert(out@[t] == old_out[t]);
                        }
                    }
                    assert(records_view(out@) =~= records_view(old_out).push((suffix@, cnt)));
                }
                let next = if nl < n {
                    nl + 1
                } else {
                    n
                };
                proof {
                    let rest_lines = split_lines(f).drop_first();
                    assert(parse_lines(split_lines(f)) == match parse_lines(rest_lines) {
                        Some(rest) => Some(seq![(line.take(colon - start), cnt)] + rest),
                        None => None::<Seq<(Seq<char>, u64)>>,
                    });
                    if nl < n {
                        assert(f.skip(nl - start + 1) =~= v@.skip(nl + 1));
                    }
                    assert(rest_lines =~= split_lines(v@.skip(next as int)));
                    if parse_lines(rest_lines) is Some {
                        assert(records_view(out@) + parse_lines(rest_lines)->0 =~= records_view(
                            old_out,
                        ) + (seq![(line.take(colon - start), cnt)] + parse_lines(rest_lines)->0));
                    }
                }
                start = next;
            },
        }
    }
    proof {
        assert(v@.skip(n as int) =~= Seq::<char>::empty());
        assert(split_lines(v@.skip(n as int)) =~= Seq::<Seq<char>>::empty());
        assert(records_view(out@) + Seq::<(Seq<char>, u64)>::empty() =~= records_view(out@));
    }
    Some(out)
}

/// Finds the first occurrence of `c` at or after `from`, stopping at `to`.
fn scan_char_to(v: &Vec<char>, from: usize, to: usize, c: char) -> (r: usize)
    requires
        from <= to <= v@.len(),
    ensures
        from <= r <= to,
        forall|t: int| from <= t < r ==> v@[t] != c,
        r == to || v@[r as int] == c,
{
    let mut r = from;
    while r < to
        invariant
            from <= r <= to <= v@.len(),
            forall|t: int| from <= t < r ==> v@[t] != c,
        decreases to - r,
    {
        if v[r] == c {
            return r;
        }
        r = r + 1;
    }
    r
}

} // verus!
