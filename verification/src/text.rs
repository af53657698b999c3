//! Character-level helpers shared by the store format, the duration
//! formatter and the argument parser: digit classification, decimal
//! conversion in both directions, and plain string comparison.
use vstd::prelude::*;

verus! {

/// True for the ten ASCII decimal digits.
pub open spec fn is_digit(c: char) -> bool {
    48 <= (c as u32) <= 57
}

/// Numeric value of an ASCII decimal digit.
pub open spec fn digit_val(c: char) -> int {
    (c as u32) - 48
}

/// Every character of the sequence is an ASCII decimal digit.
pub open spec fn all_digits(s: Seq<char>) -> bool {
    forall|i: int| 0 <= i < s.len() ==> is_digit(#[trigger] s[i])
}

/// No tab and no newline anywhere in the sequence: such text is safe to
/// embed as a field of a tab-separated, newline-terminated store line.
pub open spec fn no_tab_nl(s: Seq<char>) -> bool {
    forall|i: int| 0 <= i < s.len() ==> #[trigger] s[i] != '\t' && s[i] != '\n'
}

/// Value of a digit string read most-significant first.
pub open spec fn dec_val(s: Seq<char>) -> int
    decreases s.len(),
{
    if s.len() == 0 {
        0
    } else {
        dec_val(s.drop_last()) * 10 + digit_val(s.last())
    }
}

/// The digit character for a value below ten.
pub open spec fn digit_char(d: int) -> char {
    if d == 0 { '0' }
    else if d == 1 { '1' }
    else if d == 2 { '2' }
    else if d == 3 { '3' }
    else if d == 4 { '4' }
    else if d == 5 { '5' }
    else if d == 6 { '6' }
    else if d == 7 { '7' }
    else if d == 8 { '8' }
    else { '9' }
}

/// Canonical decimal rendering of a non-negative integer (no leading
/// zeros except for zero itself).
pub open spec fn dec_seq(n: int) -> Seq<char>
    recommends 0 <= n,
    decreases n,
{
    if n < 10 {
        seq![digit_char(n)]
    } else {
        dec_seq(n / 10).push(digit_char(n % 10))
    }
}

pub proof fn lemma_dec_val_nonneg(s: Seq<char>)
    requires
        all_digits(s),
    ensures
        dec_val(s) >= 0,
    decreases s.len(),
{
    if s.len() > 0 {
        lemma_dec_val_nonneg(s.drop_last());
    }
}

/// Extending a digit string by one digit multiplies its value by ten and
/// adds the new digit.
pub proof fn lemma_dec_val_take_succ(s: Seq<char>, i: int)
    requires
        0 <= i < s.len(),
    ensures
        dec_val(s.take(i + 1)) == dec_val(s.take(i)) * 10 + digit_val(s[i]),
{
    assert(s.take(i + 1).drop_last() =~= s.take(i));
    assert(s.take(i + 1).last() == s[i]);
}

/// The value of a digit string only grows as more digits are read.
pub proof fn lemma_dec_val_take_le(s: Seq<char>, i: int)
    requires
        all_digits(s),
        0 <= i <= s.len(),
    ensures
        dec_val(s.take(i)) <= dec_val(s),
    decreases s.len() - i,
{
    if i < s.len() {
        lemma_dec_val_take_succ(s, i);
        assert(is_digit(s[i]));
        lemma_dec_val_nonneg(s.take(i));
        lemma_dec_val_take_le(s, i + 1);
    } else {
        assert(s.take(i) =~= s);
    }
}

/// The canonical rendering of a non-negative integer is made of digits and
/// reads back to the same value.
pub proof fn lemma_dec_seq_val(n: int)
    requires
        0 <= n,
    ensures
        all_digits(dec_seq(n)),
        dec_val(dec_seq(n)) == n,
        dec_seq(n).len() >= 1,
    decreases n,
{
    if n < 10 {
        assert(dec_seq(n) =~= seq![digit_char(n)]);
        assert(dec_val(dec_seq(n)) == dec_val(seq![digit_char(n)].drop_last()) * 10
            + digit_val(digit_char(n)));
        assert(seq![digit_char(n)].drop_last() =~= Seq::<char>::empty());
    } else {
        lemma_dec_seq_val(n / 10);
        let s = dec_seq(n / 10).push(digit_char(n % 10));
        assert(s.drop_last() =~= dec_seq(n / 10));
        assert(s.last() == digit_char(n % 10));
        assert(digit_val(digit_char(n % 10)) == n % 10);
        assert(forall|i: int| 0 <= i < s.len() ==> is_digit(#[trigger] s[i])) by {
            assert(forall|i: int| 0 <= i < s.len() - 1 ==> s[i] == dec_seq(n / 10)[i]);
        }
    }
}

/// A canonical decimal rendering holds neither tabs nor newlines.
pub proof fn lemma_dec_seq_no_tab_nl(n: int)
    requires
        0 <= n,
    ensures
        no_tab_nl(dec_seq(n)),
{
    lemma_dec_seq_val(n);
    assert forall|i: int| 0 <= i < dec_seq(n).len() implies #[trigger] dec_seq(n)[i] != '\t'
        && dec_seq(n)[i] != '\n' by {
        assert(is_digit(dec_seq(n)[i]));
    }
}

/// One-character string for a digit value.
fn digit_str(d: u64) -> (r: &'static str)
    requires
        d < 10,
    ensures
        r@ =~= seq![digit_char(d as int)],
{
    proof {
        reveal_strlit("0");
        reveal_strlit("1");
        reveal_strlit("2");
        reveal_strlit("3");
        reveal_strlit("4");
        reveal_strlit("5");
        reveal_strlit("6");
        reveal_strlit("7");
        reveal_strlit("8");
        reveal_strlit("9");
    }
    match d {
        0 => "0",
        1 => "1",
        2 => "2",
        3 => "3",
        4 => "4",
        5 => "5",
        6 => "6",
        7 => "7",
        8 => "8",
        _ => "9",
    }
}

/// Renders a non-negative integer in decimal.
pub fn fmt_u64(n: u64) -> (r: String)
    ensures
        r@ == dec_seq(n as int),
    decreases n,
{
    if n < 10 {
        String::from_str(digit_str(n))
    } else {
        let mut s = fmt_u64(n / 10);
        s.append(digit_str(n % 10));
        proof {
            assert(dec_seq((n / 10) as int) + seq![digit_char((n % 10) as int)]
                =~= dec_seq(n as int));
        }
        s
    }
}

/// Parses the character range `[from, to)` of `s` as an unsigned decimal
/// number. Returns the value exactly when the range is non-empty, all
/// digits, and the value fits in a `u64`.
pub fn parse_u64_range(s: &str, from: usize, to: usize) -> (r: Option<u64>)
    requires
        from <= to <= s@.len(),
    ensures
        ({
            let d = s@.subrange(from as int, to as int);
            match r {
                Some(v) => from < to && all_digits(d) && v == dec_val(d) && dec_val(d)
                    <= u64::MAX,
                None => !(from < to && all_digits(d) && dec_val(d) <= u64::MAX),
            }
        }),
{
    let ghost d = s@.subrange(from as int, to as int);
    if from == to {
        return None;
    }
    let mut acc: u64 = 0;
    let mut i: usize = from;
    while i < to
        invariant
            from <= i <= to <= s@.len(),
            d == s@.subrange(from as int, to as int),
            all_digits(d.take(i - from)),
            acc == dec_val(d.take(i - from)),
        decreases to - i,
    {
        let c = s.get_char(i);
        proof {
            assert(d[i - from] == s@[i as int]);
        }
        let cv = c as u32;
        if cv < 48 || cv > 57 {
            proof {
                assert(!is_digit(d[i - from]));
            }
            return None;
        }
        let dv: u64 = (cv - 48) as u64;
        proof {
            lemma_dec_val_take_succ(d, i - from);
            lemma_dec_val_nonneg(d.take(i - from));
        }
        let m = match acc.checked_mul(10) {
            Some(m) => m,
            None => {
                proof {
                    assert(dec_val(d.take(i - from + 1)) > u64::MAX);
                    lemma_all_digits_or_not(d, i - from + 1);
                }
                return None;
            },
        };
        let a = match m.checked_add(dv) {
            Some(a) => a,
            None => {
                proof {
                    assert(dec_val(d.take(i - from + 1)) > u64::MAX);
                    lemma_all_digits_or_not(d, i - from + 1);
                }
                return None;
            },
        };
        acc = a;
        i = i + 1;
    }
    proof {
        assert(d.take(to - from) =~= d);
    }
    Some(acc)
}

/// If a prefix of a digit string already exceeds `u64::MAX`, so does the
/// whole string, whenever the whole string is made of digits.
proof fn lemma_all_digits_or_not(d: Seq<char>, i: int)
    requires
        0 <= i <= d.len(),
        all_digits(d.take(i)),
        dec_val(d.take(i)) > u64::MAX,
    ensures
        !(all_digits(d) && dec_val(d) <= u64::MAX),
{
    if all_digits(d) {
        lemma_dec_val_take_le(d, i);
    }
}

/// Splitting at every occurrence of `sep`, defined by recursion on the
/// final character: a separator opens a fresh segment, any other
/// character extends the last one. The result always holds at least one
/// segment, and no segment contains the separator.
pub open spec fn split_spec(s: Seq<char>, sep: char) -> Seq<Seq<char>>
    decreases s.len(),
{
    if s.len() == 0 {
        seq![Seq::<char>::empty()]
    } else if s.last() == sep {
        split_spec(s.drop_last(), sep).push(Seq::<char>::empty())
    } else {
        let r = split_spec(s.drop_last(), sep);
        r.update(r.len() - 1, r.last().push(s.last()))
    }
}

/// Number of occurrences of `sep` in `s`.
pub open spec fn count_ch(s: Seq<char>, sep: char) -> int
    decreases s.len(),
{
    if s.len() == 0 {
        0
    } else {
        count_ch(s.drop_last(), sep) + if s.last() == sep { 1int } else { 0int }
    }
}

/// A text holds no more separators than characters.
pub proof fn lemma_count_le(s: Seq<char>, sep: char)
    ensures
        0 <= count_ch(s, sep) <= s.len(),
    decreases s.len(),
{
    if s.len() > 0 {
        lemma_count_le(s.drop_last(), sep);
    }
}

/// The final segment of a split is empty exactly when the text is empty
/// or ends with the separator.
pub proof fn lemma_split_trailing(s: Seq<char>, sep: char)
    ensures
        split_spec(s, sep).last().len() == 0 <==> (s.len() == 0 || s.last() == sep),
{
    lemma_split_basic(s, sep);
    if s.len() > 0 && s.last() != sep {
        let q = split_spec(s.drop_last(), sep);
        lemma_split_basic(s.drop_last(), sep);
        assert(split_spec(s, sep).last() == q.last().push(s.last()));
    }
}

pub proof fn lemma_split_basic(s: Seq<char>, sep: char)
    ensures
        split_spec(s, sep).len() >= 1,
        split_spec(s, sep).len() == count_ch(s, sep) + 1,
        forall|i: int, j: int|
            0 <= i < split_spec(s, sep).len() && 0 <= j < split_spec(s, sep)[i].len()
                ==> #[trigger] split_spec(s, sep)[i][j] != sep,
    decreases s.len(),
{
    if s.len() > 0 {
        lemma_split_basic(s.drop_last(), sep);
        let q = split_spec(s.drop_last(), sep);
        let r = split_spec(s, sep);
        assert(q.len() >= 1);
        if s.last() == sep {
            assert(r == q.push(Seq::<char>::empty()));
            assert forall|i: int, j: int| 0 <= i < r.len() && 0 <= j < r[i].len() implies #[trigger] r[i][j]
                != sep by {
                if i < q.len() {
                    assert(r[i] == q[i]);
                }
            }
        } else {
            let u = q.last().push(s.last());
            assert(r == q.update(q.len() - 1, u));
            assert forall|i: int, j: int| 0 <= i < r.len() && 0 <= j < r[i].len() implies #[trigger] r[i][j]
                != sep by {
                if i == q.len() - 1 {
                    assert(r[i] == u);
                    if j < u.len() - 1 {
                        assert(u[j] == q.last()[j]);
                        assert(q[q.len() - 1][j] != sep);
                    } else {
                        assert(u[j] == s.last());
                    }
                } else {
                    assert(r[i] == q[i]);
                }
            }
        }
    }
}

/// Splitting at the last separator: everything after position `p` forms
/// the final segment.
pub proof fn lemma_split_at_last_sep(s: Seq<char>, sep: char, p: int)
    requires
        0 <= p < s.len(),
        s[p] == sep,
        forall|j: int| p < j < s.len() ==> s[j] != sep,
    ensures
        split_spec(s, sep) == split_spec(s.take(p), sep).push(s.skip(p + 1)),
    decreases s.len(),
{
    if p == s.len() - 1 {
        assert(s.take(p) =~= s.drop_last());
        assert(s.skip(p + 1) =~= Seq::<char>::empty());
    } else {
        lemma_split_at_last_sep(s.drop_last(), sep, p);
        assert(s.drop_last().take(p) =~= s.take(p));
        lemma_split_basic(s.take(p), sep);
        let q = split_spec(s.drop_last(), sep);
        assert(q == split_spec(s.take(p), sep).push(s.drop_last().skip(p + 1)));
        assert(q.last() == s.drop_last().skip(p + 1));
        assert(s.drop_last().skip(p + 1).push(s.last()) =~= s.skip(p + 1));
        assert(q.update(q.len() - 1, q.last().push(s.last())) =~= split_spec(
            s.take(p),
            sep,
        ).push(s.skip(p + 1)));
    }
}

/// A string without the separator splits into itself alone.
pub proof fn lemma_split_whole(s: Seq<char>, sep: char)
    requires
        forall|j: int| 0 <= j < s.len() ==> s[j] != sep,
    ensures
        split_spec(s, sep) == seq![s],
    decreases s.len(),
{
    if s.len() == 0 {
        assert(split_spec(s, sep) =~~= seq![s]);
    } else {
        lemma_split_whole(s.drop_last(), sep);
        assert(seq![s.drop_last()].update(0, s.drop_last().push(s.last())) =~~= seq![s]);
    }
}

/// The text whose segments, separated by `sep`, are `parts`.
pub open spec fn joined(parts: Seq<Seq<char>>, sep: char) -> Seq<char>
    decreases parts.len(),
{
    if parts.len() == 0 {
        Seq::empty()
    } else if parts.len() == 1 {
        parts[0]
    } else {
        joined(parts.drop_last(), sep).push(sep) + parts.last()
    }
}

/// Splitting and joining are inverse: joining the segments of a text
/// restores the text.
pub proof fn lemma_join_split(s: Seq<char>, sep: char)
    ensures
        joined(split_spec(s, sep), sep) == s,
    decreases s.len(),
{
    lemma_split_basic(s, sep);
    if s.len() == 0 {
        assert(joined(split_spec(s, sep), sep) =~= s);
    } else {
        lemma_join_split(s.drop_last(), sep);
        lemma_split_basic(s.drop_last(), sep);
        let q = split_spec(s.drop_last(), sep);
        if s.last() == sep {
            assert(split_spec(s, sep) == q.push(Seq::<char>::empty()));
            assert(q.push(Seq::<char>::empty()).drop_last() =~= q);
            assert(joined(q.push(Seq::<char>::empty()), sep) =~= joined(q, sep).push(sep));
            assert(joined(q, sep).push(sep) =~= s);
        } else {
            let u = q.last().push(s.last());
            let r = q.update(q.len() - 1, u);
            assert(split_spec(s, sep) == r);
            if q.len() == 1 {
                assert(r.len() == 1);
                assert(r[0] == u);
                assert(q[0] == joined(q, sep));
                assert(joined(r, sep) =~= s);
            } else {
                assert(r.drop_last() =~= q.drop_last());
                assert(r.last() == u);
                assert(joined(r, sep) == joined(q.drop_last(), sep).push(sep) + u);
                assert(joined(q, sep) == joined(q.drop_last(), sep).push(sep) + q.last());
                assert(joined(r, sep) =~= joined(q, sep).push(s.last()));
                assert(joined(q, sep).push(s.last()) =~= s);
            }
        }
    }
}

/// Joining and splitting are inverse: separator-free segments are
/// recovered exactly by splitting their joined text.
pub proof fn lemma_split_of_joined(parts: Seq<Seq<char>>, sep: char)
    requires
        parts.len() >= 1,
        forall|i: int, j: int|
            0 <= i < parts.len() && 0 <= j < parts[i].len() ==> #[trigger] parts[i][j] != sep,
    ensures
        split_spec(joined(parts, sep), sep) == parts,
    decreases parts.len(),
{
    if parts.len() == 1 {
        assert(joined(parts, sep) == parts[0]);
        lemma_split_whole(parts[0], sep);
        assert(seq![parts[0]] =~~= parts);
    } else {
        assert(forall|i: int, j: int|
            0 <= i < parts.drop_last().len() && 0 <= j < parts.drop_last()[i].len()
                ==> #[trigger] parts.drop_last()[i][j] != sep);
        lemma_split_of_joined(parts.drop_last(), sep);
        let w = joined(parts, sep);
        let a = joined(parts.drop_last(), sep);
        let p = a.len() as int;
        assert(w == a.push(sep) + parts.last());
        assert(w[p] == sep);
        assert forall|j: int| p < j < w.len() implies w[j] != sep by {
            assert(w[j] == parts.last()[j - p - 1]);
            assert(parts[parts.len() - 1][j - p - 1] != sep);
        }
        lemma_split_at_last_sep(w, sep, p);
        assert(w.take(p) =~= a);
        assert(w.skip(p + 1) =~= parts.last());
        assert(parts.drop_last().push(parts.last()) =~~= parts);
    }
}

/// The views of a vector of strings.
pub open spec fn views_of(v: Seq<String>) -> Seq<Seq<char>> {
    v.map_values(|x: String| x@)
}

/// Splits `s` at every occurrence of `sep`.
pub fn split_str(s: &str, sep: char) -> (r: Vec<String>)
    ensures
        views_of(r@) == split_spec(s@, sep),
{
    let mut r: Vec<String> = Vec::new();
    let mut cur: String = String::new();
    let n = s.unicode_len();
    let mut i: usize = 0;
    while i < n
        invariant
            0 <= i <= n,
            n == s@.len(),
            views_of(r@).push(cur@) =~~= split_spec(s@.take(i as int), sep),
        decreases n - i,
    {
        let ghost prefix = s@.take(i as int);
        proof {
            assert(s@.take(i + 1).drop_last() =~= prefix);
            assert(s@.take(i + 1).last() == s@[i as int]);
        }
        let c = s.get_char(i);
        if c == sep {
            let ghost old_r = r@;
            r.push(cur);
            cur = String::new();
            proof {
                assert(views_of(r@) =~~= views_of(old_r).push(r@[old_r.len() as int]@));
                assert(views_of(r@).push(cur@) =~~= split_spec(s@.take(i + 1), sep));
            }
        } else {
            let piece = s.substring_char(i, i + 1);
            proof {
                assert(piece@ =~= seq![s@[i as int]]);
            }
            cur.append(piece);
            proof {
                let q = split_spec(prefix, sep);
                assert(q.update(q.len() - 1, q.last().push(s@[i as int])) =~~= views_of(
                    r@,
                ).push(cur@));
            }
        }
        i = i + 1;
    }
    proof {
        assert(s@.take(n as int) =~= s@);
    }
    let ghost old_r = r@;
    let ghost last = cur@;
    r.push(cur);
    proof {
        assert(views_of(r@) =~~= views_of(old_r).push(last));
    }
    r
}

/// The whitespace characters the library strips at the ends of external
/// text: space, tab, newline, carriage return.
pub open spec fn is_space(c: char) -> bool {
    c == ' ' || c == '\t' || c == '\n' || c == '\r'
}

pub open spec fn trim_start_spec(s: Seq<char>) -> Seq<char>
    decreases s.len(),
{
    if s.len() > 0 && is_space(s.first()) {
        trim_start_spec(s.drop_first())
    } else {
        s
    }
}

pub open spec fn trim_end_spec(s: Seq<char>) -> Seq<char>
    decreases s.len(),
{
    if s.len() > 0 && is_space(s.last()) {
        trim_end_spec(s.drop_last())
    } else {
        s
    }
}

/// Whitespace stripped from both ends.
pub open spec fn trim_spec(s: Seq<char>) -> Seq<char> {
    trim_end_spec(trim_start_spec(s))
}

proof fn lemma_trim_start_at(s: Seq<char>, a: int)
    requires
        0 <= a <= s.len(),
        forall|j: int| 0 <= j < a ==> is_space(#[trigger] s[j]),
        a < s.len() ==> !is_space(s[a]),
    ensures
        trim_start_spec(s) =~= s.skip(a),
    decreases a,
{
    if a == 0 {
        if s.len() > 0 && is_space(s.first()) {
            assert(false);
        }
        assert(s.skip(0) =~= s);
    } else {
        assert(is_space(s.first()));
        lemma_trim_start_at(s.drop_first(), a - 1);
        assert(s.drop_first().skip(a - 1) =~= s.skip(a));
    }
}

proof fn lemma_trim_end_at(s: Seq<char>, b: int)
    requires
        0 <= b <= s.len(),
        forall|j: int| b <= j < s.len() ==> is_space(#[trigger] s[j]),
        b > 0 ==> !is_space(s[b - 1]),
    ensures
        trim_end_spec(s) =~= s.take(b),
    decreases s.len() - b,
{
    if b == s.len() {
        if s.len() > 0 && is_space(s.last()) {
            assert(false);
        }
        assert(s.take(b) =~= s);
    } else {
        assert(is_space(s.last()));
        lemma_trim_end_at(s.drop_last(), b);
        assert(s.drop_last().take(b) =~= s.take(b));
    }
}

proof fn lemma_trim_start_keeps(s: Seq<char>, c: char)
    requires
        forall|i: int| 0 <= i < s.len() ==> s[i] != c,
    ensures
        forall|i: int|
            0 <= i < trim_start_spec(s).len() ==> #[trigger] trim_start_spec(s)[i] != c,
    decreases s.len(),
{
    if s.len() > 0 && is_space(s.first()) {
        assert(forall|i: int| 0 <= i < s.drop_first().len() ==> #[trigger] s.drop_first()[i]
            != c);
        lemma_trim_start_keeps(s.drop_first(), c);
        assert(trim_start_spec(s) == trim_start_spec(s.drop_first()));
    }
}

proof fn lemma_trim_end_keeps(s: Seq<char>, c: char)
    requires
        forall|i: int| 0 <= i < s.len() ==> s[i] != c,
    ensures
        forall|i: int| 0 <= i < trim_end_spec(s).len() ==> #[trigger] trim_end_spec(s)[i] != c,
    decreases s.len(),
{
    if s.len() > 0 && is_space(s.last()) {
        assert(forall|i: int| 0 <= i < s.drop_last().len() ==> #[trigger] s.drop_last()[i] != c);
        lemma_trim_end_keeps(s.drop_last(), c);
        assert(trim_end_spec(s) == trim_end_spec(s.drop_last()));
    }
}

/// Trimming never introduces a character the text did not hold.
pub proof fn lemma_trim_keeps(s: Seq<char>, c: char)
    requires
        forall|i: int| 0 <= i < s.len() ==> s[i] != c,
    ensures
        forall|i: int| 0 <= i < trim_spec(s).len() ==> #[trigger] trim_spec(s)[i] != c,
{
    lemma_trim_start_keeps(s, c);
    lemma_trim_end_keeps(trim_start_spec(s), c);
}

/// Length of the longest digit prefix of `s`.
pub open spec fn digits_len(s: Seq<char>) -> int
    decreases s.len(),
{
    if s.len() == 0 || !is_digit(s.first()) {
        0
    } else {
        1 + digits_len(s.drop_first())
    }
}

/// A scan that stops at the first non-digit finds the digit prefix.
pub proof fn lemma_digits_len_at(s: Seq<char>, d: int)
    requires
        0 <= d <= s.len(),
        forall|j: int| 0 <= j < d ==> is_digit(#[trigger] s[j]),
        d < s.len() ==> !is_digit(s[d]),
    ensures
        digits_len(s) == d,
    decreases s.len(),
{
    if d == 0 {
    } else {
        assert(is_digit(s.first()));
        assert(forall|j: int| 0 <= j < d - 1 ==> s.drop_first()[j] == s[j + 1]);
        lemma_digits_len_at(s.drop_first(), d - 1);
    }
}

fn is_space_char(c: char) -> (r: bool)
    ensures
        r == is_space(c),
{
    c == ' ' || c == '\t' || c == '\n' || c == '\r'
}

/// Strips whitespace from both ends of `s`.
pub fn trim_str(s: &str) -> (r: String)
    ensures
        r@ == trim_spec(s@),
{
    let n = s.unicode_len();
    let mut a: usize = 0;
    while a < n && is_space_char(s.get_char(a))
        invariant
            0 <= a <= n,
            n == s@.len(),
            forall|j: int| 0 <= j < a ==> is_space(#[trigger] s@[j]),
        decreases n - a,
    {
        a = a + 1;
    }
    if a == n {
        proof {
            lemma_trim_start_at(s@, n as int);
            assert(trim_start_spec(s@) =~= Seq::<char>::empty());
        }
        return String::new();
    }
    proof {
        lemma_trim_start_at(s@, a as int);
    }
    let mut b: usize = n;
    while b > a && is_space_char(s.get_char(b - 1))
        invariant
            a <= b <= n,
            n == s@.len(),
            a < n,
            !is_space(s@[a as int]),
            forall|j: int| b <= j < n ==> is_space(#[trigger] s@[j]),
        decreases b,
    {
        b = b - 1;
    }
    proof {
        let t = s@.skip(a as int);
        lemma_trim_end_at(t, b - a);
        assert(t.take(b - a) =~= s@.subrange(a as int, b as int));
    }
    String::from_str(s.substring_char(a, b))
}

/// Every tab replaced by a space.
pub open spec fn untabbed(s: Seq<char>) -> Seq<char> {
    s.map_values(|c: char| if c == '\t' { ' ' } else { c })
}

/// Replaces every tab of `s` by a space.
pub fn replace_tabs(s: &str) -> (r: String)
    ensures
        r@ == untabbed(s@),
{
    let mut r = String::new();
    let n = s.unicode_len();
    let mut i: usize = 0;
    while i < n
        invariant
            0 <= i <= n,
            n == s@.len(),
            r@ =~= untabbed(s@.take(i as int)),
        decreases n - i,
    {
        let c = s.get_char(i);
        if c == '\t' {
            proof {
                reveal_strlit(" ");
            }
            r.append(" ");
        } else {
            let piece = s.substring_char(i, i + 1);
            proof {
                assert(piece@ =~= seq![s@[i as int]]);
            }
            r.append(piece);
        }
        proof {
            assert(untabbed(s@.take(i + 1)) =~= untabbed(s@.take(i as int)).push(
                if s@[i as int] == '\t' { ' ' } else { s@[i as int] },
            ));
        }
        i = i + 1;
    }
    proof {
        assert(s@.take(n as int) =~= s@);
    }
    r
}

/// A run of `n` spaces.
pub fn spaces(n: usize) -> (r: String)
    ensures
        r@ =~= Seq::new(n as nat, |i: int| ' '),
{
    let mut r = String::new();
    let mut i: usize = 0;
    while i < n
        invariant
            0 <= i <= n,
            r@ =~= Seq::new(i as nat, |j: int| ' '),
        decreases n - i,
    {
        proof {
            reveal_strlit(" ");
        }
        r.append(" ");
        i = i + 1;
        proof {
            assert(r@ =~= Seq::new(i as nat, |j: int| ' '));
        }
    }
    r
}

/// Character-wise string equality, with equality of the views in its
/// contract.
pub fn str_eq(a: &str, b: &str) -> (r: bool)
    ensures
        r == (a@ == b@),
{
    let la = a.unicode_len();
    let lb = b.unicode_len();
    if la != lb {
        return false;
    }
    let mut i: usize = 0;
    while i < la
        invariant
            0 <= i <= la,
            la == a@.len(),
            la == b@.len(),
            forall|j: int| 0 <= j < i ==> a@[j] == b@[j],
        decreases la - i,
    {
        if a.get_char(i) != b.get_char(i) {
            return false;
        }
        i = i + 1;
    }
    proof {
        assert(a@ =~= b@);
    }
    true
}

} // verus!
