use vstd::prelude::*;

verus! {

// ---------------------------------------------------------------------------
// Character scanning
// ---------------------------------------------------------------------------
/// Index of the first occurrence of `c` in `s`, or `s.len()` when `s` does not
/// contain it.
pub open spec fn idx_of(s: Seq<char>, c: char) -> int
    decreases s.len(),
{
    if s.len() == 0 {
        0
    } else if s[0] == c {
        0
    } else {
        1 + idx_of(s.drop_first(), c)
    }
}

/// What `idx_of` finds: an in-range position, holding `c` unless it is the
/// end, with nothing equal to `c` before it.
pub proof fn lemma_idx_of(s: Seq<char>, c: char)
    ensures
        0 <= idx_of(s, c) <= s.len(),
        idx_of(s, c) < s.len() ==> s[idx_of(s, c)] == c,
        forall|j: int| 0 <= j < idx_of(s, c) ==> s[j] != c,
    decreases s.len(),
{
    if s.len() == 0 {
    } else if s[0] == c {
    } else {
        lemma_idx_of(s.drop_first(), c);
        assert forall|j: int| 0 <= j < idx_of(s, c) implies s[j] != c by {
            if j > 0 {
                assert(s.drop_first()[j - 1] == s[j]);
            }
        }
    }
}

/// A position with nothing equal to `c` before it, and `c` at it or the end
/// of `s` behind it, is exactly `idx_of`.
pub proof fn lemma_idx_of_is(s: Seq<char>, c: char, i: int)
    requires
        0 <= i <= s.len(),
        forall|j: int| 0 <= j < i ==> s[j] != c,
        i < s.len() ==> s[i] == c,
    ensures
        idx_of(s, c) == i,
{
    lemma_idx_of(s, c);
}

// ---------------------------------------------------------------------------
// Decimal counts
// ---------------------------------------------------------------------------
/// Whether `c` is a decimal digit.
pub open spec fn is_digit(c: char) -> bool {
    ('0' as u32) <= (c as u32) && (c as u32) <= ('9' as u32)
}

/// Whether `s` consists of decimal digits alone.
pub open spec fn all_digits(s: Seq<char>) -> bool {
    forall|i: int| 0 <= i < s.len() ==> is_digit(#[trigger] s[i])
}

/// The value of `s` read as a base-10 numeral, most significant digit first.
pub open spec fn digits_value(s: Seq<char>) -> int
    decreases s.len(),
{
    if s.len() == 0 {
        0
    } else {
        digits_value(s.drop_last()) * 10 + ((s.last() as u32) - ('0' as u32))
    }
}

/// How `u64::from_str_radix` reads a base-10 count: one optional leading
/// plus sign, then at least one digit, and a value that a u64 can carry;
/// anything else does not parse.
pub open spec fn spec_parse_u64(s: Seq<char>) -> Option<u64> {
    let d = if s.len() > 0 && s[0] == '+' {
        s.drop_first()
    } else {
        s
    };
    if d.len() > 0 && all_digits(d) && digits_value(d) <= u64::MAX {
        Some(digits_value(d) as u64)
    } else {
        None
    }
}

/// Extending a numeral by one digit keeps it all digits and multiplies its
/// value by ten before adding the digit.
pub proof fn lemma_digits_value_step(d: Seq<char>, t: int)
    requires
        0 <= t < d.len(),
        all_digits(d.take(t)),
        is_digit(d[t]),
    ensures
        all_digits(d.take(t + 1)),
        digits_value(d.take(t + 1)) == digits_value(d.take(t)) * 10 + ((d[t] as u32) - (
        '0' as u32)),
{
    assert forall|j: int| 0 <= j < t + 1 implies is_digit(#[trigger] d.take(t + 1)[j]) by {
        assert(d.take(t + 1)[j] == d[j]);
        if j < t {
            assert(d.take(t)[j] == d[j]);
            assert(is_digit(d.take(t)[j]));
        }
    }
    assert(d.take(t + 1).drop_last() =~= d.take(t));
    assert(d.take(t + 1).last() == d[t]);
}

/// A numeral of digits has a non-negative value.
pub proof fn lemma_digits_value_nonneg(s: Seq<char>)
    requires
        all_digits(s),
    ensures
        digits_value(s) >= 0,
    decreases s.len(),
{
    if s.len() > 0 {
        assert(all_digits(s.drop_last())) by {
            assert(forall|i: int|
                0 <= i < s.len() - 1 ==> #[trigger] s.drop_last()[i] == s[i]);
        }
        lemma_digits_value_nonneg(s.drop_last());
        assert(is_digit(s.last()));
    }
}

/// Reading one more digit never shrinks a numeral's value: the value of a
/// prefix bounds the value of the whole from below.
pub proof fn lemma_digits_value_prefix(s: Seq<char>, m: int)
    requires
        0 <= m <= s.len(),
        all_digits(s),
    ensures
        digits_value(s.take(m)) <= digits_value(s),
    decreases s.len() - m,
{
    if m == s.len() {
        assert(s.take(m) =~= s);
    } else {
        assert(all_digits(s.take(m))) by {
            assert(forall|i: int| 0 <= i < m ==> #[trigger] s.take(m)[i] == s[i]);
        }
        lemma_digits_value_nonneg(s.take(m));
        assert(s.take(m + 1).drop_last() =~= s.take(m));
        assert(s.take(m + 1).last() == s[m]);
        assert(is_digit(s[m]));
        assert(digits_value(s.take(m + 1)) == digits_value(s.take(m)) * 10 + ((s[m] as u32)
            - ('0' as u32)));
        assert(digits_value(s.take(m)) * 10 >= digits_value(s.take(m))) by {
            lemma_digits_value_nonneg(s.take(m));
        }
        lemma_digits_value_prefix(s, m + 1);
    }
}

// ---------------------------------------------------------------------------
// Lines
// ---------------------------------------------------------------------------
/// One line with a single trailing carriage return removed, the way
/// `str::lines` hands lines out.
pub open spec fn chop_cr(l: Seq<char>) -> Seq<char> {
    if l.len() > 0 && l.last() == '\r' {
        l.drop_last()
    } else {
        l
    }
}

/// The lines of `s`: split at every newline, each line stripped of one
/// trailing carriage return, and no empty final line after a terminating
/// newline.
pub open spec fn spec_lines(s: Seq<char>) -> Seq<Seq<char>>
    decreases s.len(),
    via spec_lines_decreases
{
    if s.len() == 0 {
        Seq::empty()
    } else {
        let i = idx_of(s, '\n');
        if i == s.len() {
            seq![chop_cr(s)]
        } else {
            seq![chop_cr(s.take(i))] + spec_lines(s.skip(i + 1))
        }
    }
}

#[via_fn]
proof fn spec_lines_decreases(s: Seq<char>) {
    lemma_idx_of(s, '\n');
}

// ---------------------------------------------------------------------------
// Candidates
// ---------------------------------------------------------------------------
/// One line's candidate: the text before the first colon paired with the
/// count parsed after it; `None` when the line has no colon or the count does
/// not parse.
pub open spec fn parse_line(l: Seq<char>) -> Option<(Seq<char>, u64)> {
    let c = idx_of(l, ':');
    if c == l.len() {
        None
    } else {
        match spec_parse_u64(l.skip(c + 1)) {
            Some(n) => Some((l.take(c), n)),
            None => None,
        }
    }
}

/// The candidates of a list of lines, in order, lines that do not parse
/// dropped.
pub open spec fn candidates_of_lines(ls: Seq<Seq<char>>) -> Seq<(Seq<char>, u64)>
    decreases ls.len(),
{
    if ls.len() == 0 {
        Seq::empty()
    } else {
        (match parse_line(ls[0]) {
            Some(c) => seq![c],
            None => Seq::empty(),
        }) + candidates_of_lines(ls.drop_first())
    }
}

/// Everything a raw response text yields: the valid `SUFFIX:COUNT` records of
/// its lines, in their order, duplicates kept.
pub open spec fn spec_candidates(s: Seq<char>) -> Seq<(Seq<char>, u64)> {
    candidates_of_lines(spec_lines(s))
}

/// Candidate extraction distributes over concatenation of line lists.
pub proof fn lemma_candidates_of_lines_add(a: Seq<Seq<char>>, b: Seq<Seq<char>>)
    ensures
        candidates_of_lines(a + b) == candidates_of_lines(a) + candidates_of_lines(b),
    decreases a.len(),
{
    if a.len() == 0 {
        assert(a + b =~= b);
        assert(candidates_of_lines(a) + candidates_of_lines(b) =~= candidates_of_lines(b));
    } else {
        assert((a + b).drop_first() =~= a.drop_first() + b);
        assert((a + b)[0] == a[0]);
        lemma_candidates_of_lines_add(a.drop_first(), b);
        let head = match parse_line(a[0]) {
            Some(c) => seq![c],
            None => Seq::<(Seq<char>, u64)>::empty(),
        };
        assert(candidates_of_lines(a + b) == head + (candidates_of_lines(a.drop_first())
            + candidates_of_lines(b)));
        assert(head + (candidates_of_lines(a.drop_first()) + candidates_of_lines(b)) =~= (head
            + candidates_of_lines(a.drop_first())) + candidates_of_lines(b));
    }
}

/// Every candidate a line list yields comes from one of its lines, whose
/// parse succeeded with exactly that suffix and count: nothing is invented
/// and nothing mis-parsed slips through.
pub proof fn lemma_candidates_sound(ls: Seq<Seq<char>>)
    ensures
        forall|i: int|
            0 <= i < candidates_of_lines(ls).len() ==> exists|j: int|
                0 <= j < ls.len() && parse_line(ls[j]) == Some(
                    #[trigger] candidates_of_lines(ls)[i],
                ),
    decreases ls.len(),
{
    if ls.len() > 0 {
        lemma_candidates_sound(ls.drop_first());
        let head = match parse_line(ls[0]) {
            Some(c) => seq![c],
            None => Seq::<(Seq<char>, u64)>::empty(),
        };
        let tail = candidates_of_lines(ls.drop_first());
        assert forall|i: int| 0 <= i < candidates_of_lines(ls).len() implies exists|j: int|
            0 <= j < ls.len() && parse_line(ls[j]) == Some(
                #[trigger] candidates_of_lines(ls)[i],
            ) by {
            if i < head.len() {
                assert(candidates_of_lines(ls)[i] == head[0]);
                assert(parse_line(ls[0]) == Some(candidates_of_lines(ls)[i]));
            } else {
                assert(candidates_of_lines(ls)[i] == tail[i - head.len()]);
                let j0 = choose|j0: int|
                    0 <= j0 < ls.drop_first().len() && parse_line(ls.drop_first()[j0]) == Some(
                        tail[i - head.len()],
                    );
                assert(ls.drop_first()[j0] == ls[j0 + 1]);
                assert(parse_line(ls[j0 + 1]) == Some(candidates_of_lines(ls)[i]));
            }
        }
    }
}

// ---------------------------------------------------------------------------
// Executable parsing
// ---------------------------------------------------------------------------
/// String equality, character by character, pinned to the views.
pub fn str_eq(a: &str, b: &str) -> (r: bool)
    ensures
        r == (a@ == b@),
{
    let na = a.unicode_len();
    let nb = b.unicode_len();
    if na != nb {
        return false;
    }
    let mut i: usize = 0;
    while i < na
        invariant
            na == a@.len(),
            na == b@.len(),
            0 <= i <= na,
            forall|j: int| 0 <= j < i ==> a@[j] == b@[j],
        decreases na - i,
    {
        if a.get_char(i) != b.get_char(i) {
            return false;
        }
        i += 1;
    }
    proof {
        assert(a@ =~= b@);
    }
    true
}

/// Parses `input`'s characters from `from` to `to` as a base-10 count, the
/// way `u64::from_str_radix` would read that piece of text.
#[verifier::rlimit(50)]
fn parse_count(input: &str, from: usize, to: usize) -> (r: Option<u64>)
    requires
        from <= to <= input@.len(),
    ensures
        r == spec_parse_u64(input@.subrange(from as int, to as int)),
{
    let ghost s = input@.subrange(from as int, to as int);
    let mut p = from;
    if p < to && input.get_char(p) == '+' {
        p += 1;
    }
    let ghost d = input@.subrange(p as int, to as int);
    proof {
        if s.len() > 0 && s[0] == '+' {
            assert(d =~= s.drop_first());
        } else {
            assert(d =~= s);
        }
    }
    if p == to {
        return None;
    }
    let mut val: u64 = 0;
    let mut m = p;
    while m < to
        invariant
            from <= p <= m <= to <= input@.len(),
            s == input@.subrange(from as int, to as int),
            d == (if s.len() > 0 && s[0] == '+' {
                s.drop_first()
            } else {
                s
            }),
            d == input@.subrange(p as int, to as int),
            d.len() == to - p,
            d.len() > 0,
            all_digits(d.take(m - p)),
            val == digits_value(d.take(m - p)),
        decreases to - m,
    {
        let c = input.get_char(m);
        let u = c as u32;
        let ghost t = m - p;
        proof {
            assert(d[t] == input@[m as int]);
        }
        if u < 48 || u > 57 {
            proof {
                assert(!is_digit(d[t]));
            }
            return None;
        }
        let dig = (u - 48) as u64;
        proof {
            assert(is_digit(d[t]));
            lemma_digits_value_step(d, t);
            assert(((d[t] as u32) - ('0' as u32)) == dig);
        }
        if val > 1844674407370955161u64 || (val == 1844674407370955161u64 && dig > 5) {
            proof {
                assert(digits_value(d.take(t + 1)) > u64::MAX);
                if all_digits(d) {
                    lemma_digits_value_prefix(d, t + 1);
                    assert(digits_value(d) > u64::MAX);
                }
            }
            return None;
        }
        val = val * 10 + dig;
        m += 1;
    }
    proof {
        assert(d.take(to - p) =~= d);
    }
    Some(val)
}

/// Parses one line, `input`'s characters from `start` to `end`: the text
/// before the first colon with its count, or `None` when the line does not
/// parse.
fn parse_line_at<'a>(input: &'a str, start: usize, end: usize) -> (r: Option<(&'a str, u64)>)
    requires
        start <= end <= input@.len(),
    ensures
        ({
            let pl = parse_line(input@.subrange(start as int, end as int));
            &&& r is Some <==> pl is Some
            &&& r is Some ==> (r.unwrap().0@, r.unwrap().1) == pl.unwrap()
        }),
{
    let ghost l = input@.subrange(start as int, end as int);
    let mut k = start;
    while k < end && input.get_char(k) != ':'
        invariant
            start <= k <= end <= input@.len(),
            forall|j: int| start <= j < k ==> input@[j] != ':',
        decreases end - k,
    {
        k += 1;
    }
    proof {
        assert(forall|j: int| 0 <= j < k - start ==> l[j] == input@[start + j]);
        assert(k < end ==> l[k - start] == input@[k as int]);
        lemma_idx_of_is(l, ':', k - start);
    }
    if k == end {
        return None;
    }
    let suffix = input.substring_char(start, k);
    proof {
        assert(suffix@ =~= l.take(k - start));
        assert(input@.subrange(k + 1, end as int) =~= l.skip(k - start + 1));
    }
    match parse_count(input, k + 1, end) {
        Some(n) => Some((suffix, n)),
        None => None,
    }
}

/// Turns a raw line-oriented response into the candidate records of its
/// valid lines, in order: each line is split on its first colon, the count
/// is read as a non-negative base-10 integer, malformed lines are silently
/// dropped, and duplicate suffixes are kept.
pub fn parse_results<'a>(input: &'a str) -> (r: Vec<(&'a str, u64)>)
    ensures
        r@.len() == spec_candidates(input@).len(),
        forall|i: int|
            0 <= i < r@.len() ==> (#[trigger] r@[i]).0@ == spec_candidates(input@)[i].0 && r@[i].1
                == spec_candidates(input@)[i].1,
{
    let n = input.unicode_len();
    let mut out: Vec<(&'a str, u64)> = Vec::new();
    let mut pos: usize = 0;
    let ghost sc = spec_candidates(input@);
    proof {
        assert(input@.skip(0) =~= input@);
    }
    while pos < n
        invariant
            0 <= pos <= n,
            n == input@.len(),
            sc == spec_candidates(input@),
            out@.len() + candidates_of_lines(spec_lines(input@.skip(pos as int))).len()
                == sc.len(),
            forall|i: int|
                0 <= i < out@.len() ==> (#[trigger] out@[i]).0@ == sc[i].0 && out@[i].1
                    == sc[i].1,
            forall|i: int|
                0 <= i < candidates_of_lines(spec_lines(input@.skip(pos as int))).len()
                    ==> #[trigger] candidates_of_lines(spec_lines(input@.skip(pos as int)))[i]
                    == sc[out@.len() + i],
        decreases n - pos,
    {
        let mut j = pos;
        while j < n && input.get_char(j) != '\n'
            invariant
                pos <= j <= n,
                n == input@.len(),
                forall|k: int| pos <= k < j ==> input@[k] != '\n',
            decreases n - j,
        {
            j += 1;
        }
        let mut end = j;
        if end > pos && input.get_char(end - 1) == '\r' {
            end -= 1;
        }
        let ghost rem = input@.skip(pos as int);
        let ghost line = input@.subrange(pos as int, end as int);
        let ghost head = match parse_line(line) {
            Some(c) => seq![c],
            None => Seq::<(Seq<char>, u64)>::empty(),
        };
        let ghost newpos: int = if j < n {
            j + 1
        } else {
            n as int
        };
        proof {
            assert(forall|k: int| 0 <= k < j - pos ==> rem[k] == input@[pos + k]);
            assert(j < n ==> rem[j - pos] == input@[j as int]);
            lemma_idx_of_is(rem, '\n', j - pos);
            assert(rem.take(j - pos) =~= input@.subrange(pos as int, j as int));
            assert(chop_cr(input@.subrange(pos as int, j as int)) =~= line) by {
                let sub = input@.subrange(pos as int, j as int);
                if j > pos && input@[j - 1] == '\r' {
                    assert(sub.last() == input@[j - 1]);
                    assert(sub.drop_last() =~= input@.subrange(pos as int, j - 1));
                } else {
                    if sub.len() > 0 {
                        assert(sub.last() == input@[j - 1]);
                    }
                }
            }
            if j < n {
                assert(spec_lines(rem) == seq![chop_cr(rem.take(j - pos))] + spec_lines(
                    rem.skip(j - pos + 1),
                ));
                assert(rem.skip(j - pos + 1) =~= input@.skip(newpos));
                assert(spec_lines(rem) == seq![line] + spec_lines(input@.skip(newpos)));
            } else {
                assert(chop_cr(rem.take(j - pos)) == line) by {
                    assert(rem.take(j - pos) =~= rem);
                }
                assert(spec_lines(rem) == seq![chop_cr(rem)]);
                assert(input@.skip(newpos) =~= Seq::<char>::empty());
                assert(spec_lines(input@.skip(newpos)) =~= Seq::<Seq<char>>::empty());
                assert(seq![line] + spec_lines(input@.skip(newpos)) =~= seq![chop_cr(rem)]);
                assert(spec_lines(rem) == seq![line] + spec_lines(input@.skip(newpos)));
            }
            lemma_candidates_of_lines_add(seq![line], spec_lines(input@.skip(newpos)));
            assert(candidates_of_lines(seq![line]) == head) by {
                assert(seq![line].len() == 1);
                assert(seq![line].drop_first() =~= Seq::<Seq<char>>::empty());
                assert(seq![line][0] == line);
                assert(candidates_of_lines(Seq::<Seq<char>>::empty()) == Seq::<(
                    Seq<char>,
                    u64,
                )>::empty());
                assert(head + Seq::<(Seq<char>, u64)>::empty() =~= head);
            }
            assert(candidates_of_lines(spec_lines(rem)) == head + candidates_of_lines(
                spec_lines(input@.skip(newpos)),
            ));
        }
        match parse_line_at(input, pos, end) {
            Some(c) => {
                proof {
                    assert(head.len() == 1);
                    assert(candidates_of_lines(spec_lines(rem))[0] == head[0]);
                    assert(head[0] == sc[out@.len() as int]);
                }
                out.push(c);
            },
            None => {
                proof {
                    assert(head.len() == 0);
                }
            },
        }
        proof {
            assert forall|i: int|
                0 <= i < candidates_of_lines(spec_lines(input@.skip(newpos))).len()
                    implies #[trigger] candidates_of_lines(spec_lines(input@.skip(newpos)))[i]
                == sc[out@.len() + i] by {
                assert(candidates_of_lines(spec_lines(rem))[head.len() + i]
                    == candidates_of_lines(spec_lines(input@.skip(newpos)))[i]);
            }
        }
        pos = if j < n {
            j + 1
        } else {
            n
        };
    }
    proof {
        assert(input@.skip(n as int) =~= Seq::<char>::empty());
        assert(candidates_of_lines(spec_lines(input@.skip(n as int))).len() == 0);
    }
    out
}

/// The parser never fails and only emits candidates whose count parsed, at
/// the level of the raw text: each emitted record is the successful parse of
/// one of the text's lines.
pub proof fn lemma_parse_sound(s: Seq<char>)
    ensures
        forall|i: int|
            0 <= i < spec_candidates(s).len() ==> exists|j: int|
                0 <= j < spec_lines(s).len() && parse_line(spec_lines(s)[j]) == Some(
                    #[trigger] spec_candidates(s)[i],
                ),
{
    lemma_candidates_sound(spec_lines(s));
}

} // verus!
