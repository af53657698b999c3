//! The session store's text format: one header line, then one
//! tab-separated line per session record, each line terminated by a
//! newline. The `end` column is empty while a session is open. Reading
//! parses the whole text; the patch operation rewrites only the `end`
//! column of the last line and leaves every byte before it unchanged.
use vstd::prelude::*;

use crate::text;
use crate::{Log, LogV, TwtError};

verus! {

use crate::text::{
    split_spec,
    count_ch,
    all_digits,
    dec_val,
    dec_seq,
    lemma_split_basic,
    lemma_split_at_last_sep,
    lemma_split_whole,
    lemma_dec_val_nonneg,
    lemma_dec_seq_val,
    views_of,
};

/// The fixed first line of a store file.
pub open spec fn header_spec() -> Seq<char> {
    "window_class\twindow_name\tstart\tend\n"@
}

/// Returns the header line, newline included.
pub fn header_line() -> (r: String)
    ensures
        r@ == header_spec(),
{
    String::from_str("window_class\twindow_name\tstart\tend\n")
}

/// A timestamp column: at least one digit, digits only, and a value
/// representable as a millisecond count.
pub open spec fn valid_ts(s: Seq<char>) -> bool {
    s.len() > 0 && all_digits(s) && dec_val(s) <= i64::MAX
}

/// One record line: four tab-separated columns; a non-empty class, a
/// start timestamp, and an end column that is either empty (open
/// session) or a timestamp no earlier than the start.
pub open spec fn parse_line_spec(line: Seq<char>) -> Option<LogV> {
    let f = split_spec(line, '\t');
    if f.len() == 4 && f[0].len() > 0 && valid_ts(f[2]) && (f[3].len() == 0 || (valid_ts(f[3])
        && dec_val(f[2]) <= dec_val(f[3]))) {
        Some(
            LogV {
                class: f[0],
                name: f[1],
                start: dec_val(f[2]),
                end: if f[3].len() == 0 {
                    None
                } else {
                    Some(dec_val(f[3]))
                },
            },
        )
    } else {
        None
    }
}

/// The line appended for a freshly opened record: three filled columns
/// and an empty `end` column, as the tracker always stamps the end by a
/// separate patch.
pub open spec fn csv_line_spec(l: LogV) -> Seq<char> {
    l.class + seq!['\t'] + l.name + seq!['\t'] + dec_seq(l.start) + seq!['\t']
}

impl Log {
    /// Renders the record as a store line, newline excluded; the `end`
    /// column is left empty.
    pub fn to_csv_line(&self) -> (r: String)
        requires
            self@.wf(),
        ensures
            r@ == csv_line_spec(self@),
    {
        proof {
            reveal_strlit("\t");
            assert("\t"@ =~= seq!['\t']);
        }
        let mut out = self.window_class.clone();
        out.append("\t");
        out.append(self.window_name.as_str());
        out.append("\t");
        let start_str = text::fmt_u64(self.start as u64);
        out.append(start_str.as_str());
        out.append("\t");
        proof {
            assert(out@ =~= csv_line_spec(self@));
        }
        out
    }
}

/// The lines of a store text: segments between newlines, without the
/// empty segment a final newline leaves behind.
pub open spec fn store_lines(s: Seq<char>) -> Seq<Seq<char>> {
    let parts = split_spec(s, '\n');
    if parts.last().len() == 0 {
        parts.drop_last()
    } else {
        parts
    }
}

/// Parses the lines from index `i` on; the first malformed line wins.
pub open spec fn parse_from(lines: Seq<Seq<char>>, i: int) -> Result<Seq<LogV>, int>
    decreases lines.len() - i,
{
    if i < 0 || i >= lines.len() {
        Ok(Seq::empty())
    } else {
        match parse_line_spec(lines[i]) {
            None => Err(i),
            Some(l) => match parse_from(lines, i + 1) {
                Ok(rest) => Ok(seq![l] + rest),
                Err(j) => Err(j),
            },
        }
    }
}

/// The records held by a store text: every line after the header, in
/// file order. An empty text holds no records; the header line itself is
/// never parsed.
pub open spec fn parse_store_spec(s: Seq<char>) -> Result<Seq<LogV>, int> {
    let lines = store_lines(s);
    if lines.len() == 0 {
        Ok(Seq::empty())
    } else {
        parse_from(lines, 1)
    }
}

proof fn lemma_split_keeps(s: Seq<char>, sep: char, c: char)
    requires
        forall|k: int| 0 <= k < s.len() ==> s[k] != c,
    ensures
        forall|i: int, j: int|
            0 <= i < split_spec(s, sep).len() && 0 <= j < split_spec(s, sep)[i].len()
                ==> #[trigger] split_spec(s, sep)[i][j] != c,
    decreases s.len(),
{
    if s.len() > 0 {
        lemma_split_keeps(s.drop_last(), sep, c);
        lemma_split_basic(s.drop_last(), sep);
        let q = split_spec(s.drop_last(), sep);
        let r = split_spec(s, sep);
        if s.last() == sep {
            assert forall|i: int, j: int| 0 <= i < r.len() && 0 <= j < r[i].len() implies #[trigger] r[i][j]
                != c by {
                if i < q.len() {
                    assert(r[i] == q[i]);
                }
            }
        } else {
            let u = q.last().push(s.last());
            assert forall|i: int, j: int| 0 <= i < r.len() && 0 <= j < r[i].len() implies #[trigger] r[i][j]
                != c by {
                if i == q.len() - 1 {
                    assert(r[i] == u);
                    if j < u.len() - 1 {
                        assert(u[j] == q.last()[j]);
                        assert(q[q.len() - 1][j] != c);
                    } else {
                        assert(u[j] == s.last());
                        assert(s.last() != c);
                    }
                } else {
                    assert(r[i] == q[i]);
                }
            }
        }
    }
}

/// Parses one record line. The line must already be newline-free, as
/// every line cut out of a store text is.
fn parse_line(line: &str) -> (r: Option<Log>)
    requires
        forall|k: int| 0 <= k < line@.len() ==> line@[k] != '\n',
    ensures
        match r {
            Some(l) => parse_line_spec(line@) == Some(l@) && l@.wf(),
            None => parse_line_spec(line@) is None,
        },
{
    proof {
        lemma_split_basic(line@, '\t');
        lemma_split_keeps(line@, '\t', '\n');
    }
    let ghost f = split_spec(line@, '\t');
    let mut v = text::split_str(line, '\t');
    if v.len() != 4 {
        return None;
    }
    let f3 = v.pop().unwrap();
    let f2 = v.pop().unwrap();
    let f1 = v.pop().unwrap();
    let f0 = v.pop().unwrap();
    proof {
        assert(f0@ == f[0] && f1@ == f[1] && f2@ == f[2] && f3@ == f[3]);
    }
    if f0.as_str().is_empty() {
        return None;
    }
    let n2 = f2.as_str().unicode_len();
    proof {
        assert(f2@.subrange(0, n2 as int) =~= f[2]);
    }
    let start_u = match text::parse_u64_range(f2.as_str(), 0, n2) {
        Some(u) => u,
        None => {
            return None;
        },
    };
    if start_u > i64::MAX as u64 {
        return None;
    }
    let start: i64 = start_u as i64;
    let n3 = f3.as_str().unicode_len();
    proof {
        assert(f3@.subrange(0, n3 as int) =~= f[3]);
    }
    let end: Option<i64> = if n3 == 0 {
        None
    } else {
        let end_u = match text::parse_u64_range(f3.as_str(), 0, n3) {
            Some(u) => u,
            None => {
                return None;
            },
        };
        if end_u > i64::MAX as u64 {
            return None;
        }
        if end_u < start_u {
            return None;
        }
        Some(end_u as i64)
    };
    proof {
        lemma_dec_val_nonneg(f[2]);
    }
    Some(Log { window_class: f0, window_name: f1, start, end })
}

/// Parses a whole store text into its records. `Err` carries the
/// one-based number of the first malformed line.
pub fn parse_store(contents: &str) -> (r: Result<Vec<Log>, TwtError>)
    ensures
        match r {
            Ok(v) => parse_store_spec(contents@) is Ok && views_of_logs(v@) == parse_store_spec(
                contents@,
            )->Ok_0 && forall|k: int| 0 <= k < v@.len() ==> (#[trigger] v@[k]@).wf(),
            Err(e) => parse_store_spec(contents@) is Err && e == (TwtError::Corrupt {
                line: (parse_store_spec(contents@)->Err_0 + 1) as usize,
            }),
        },
{
    proof {
        lemma_split_basic(contents@, '\n');
    }
    let mut lines = text::split_str(contents, '\n');
    let ghost parts = split_spec(contents@, '\n');
    if lines[lines.len() - 1].as_str().is_empty() {
        let _ = lines.pop();
        proof {
            assert(views_of(lines@) =~~= parts.drop_last());
        }
    }
    let ghost lv = store_lines(contents@);
    proof {
        assert(views_of(lines@) == lv);
        assert forall|i2: int, j: int| 0 <= i2 < lv.len() && 0 <= j < lv[i2].len() implies #[trigger] lv[i2][j]
            != '\n' by {
            assert(lv[i2] == parts[i2]);
        }
    }
    let mut out: Vec<Log> = Vec::new();
    if lines.len() == 0 {
        proof {
            assert(views_of_logs(out@) =~~= Seq::<LogV>::empty());
        }
        return Ok(out);
    }
    let mut i: usize = 1;
    while i < lines.len()
        invariant
            1 <= i <= lines.len(),
            lv == store_lines(contents@),
            views_of(lines@) == lv,
            lv.len() == lines.len(),
            lv.len() >= 1,
            forall|i2: int, j: int|
                0 <= i2 < lv.len() && 0 <= j < lv[i2].len() ==> #[trigger] lv[i2][j] != '\n',
            out@.len() == i - 1,
            forall|k: int| 1 <= k < i ==> parse_line_spec(#[trigger] lv[k]) is Some,
            forall|k: int|
                0 <= k < i - 1 ==> Some(#[trigger] out@[k]@) == parse_line_spec(lv[k + 1]),
            forall|k: int| 0 <= k < out@.len() ==> (#[trigger] out@[k]@).wf(),
        decreases lines.len() - i,
    {
        proof {
            assert(lines@[i as int]@ == lv[i as int]);
        }
        match parse_line(lines[i].as_str()) {
            Some(l) => {
                out.push(l);
            },
            None => {
                proof {
                    lemma_parse_from_err(lv, 1, i as int);
                    assert(store_lines(contents@) == lv);
                    assert(lv.len() != 0);
                    assert(parse_from(lv, 1) == Err::<Seq<LogV>, int>(i as int));
                    assert(parse_store_spec(contents@) == Err::<Seq<LogV>, int>(i as int));
                    assert((i as int + 1) as usize == i + 1);
                }
                return Err(TwtError::Corrupt { line: i + 1 });
            },
        }
        i = i + 1;
    }
    proof {
        lemma_parse_from_ok(lv, 1);
        let spec_out = Seq::new((lv.len() - 1) as nat, |k: int| parse_line_spec(lv[1 + k])->0);
        assert(parse_from(lv, 1)->Ok_0 == spec_out);
        assert forall|k: int| 0 <= k < spec_out.len() implies views_of_logs(out@)[k] == spec_out[k] by {
            assert(Some(out@[k]@) == parse_line_spec(lv[k + 1]));
        }
        assert(views_of_logs(out@) =~= spec_out);
        assert(parse_store_spec(contents@) is Ok);
    }
    Ok(out)
}

/// The views of a vector of records.
pub open spec fn views_of_logs(v: Seq<Log>) -> Seq<LogV> {
    v.map_values(|l: Log| l@)
}

/// If every line from `i` on parses, the whole suffix parses to the
/// sequence of its line values.
proof fn lemma_parse_from_ok(lines: Seq<Seq<char>>, i: int)
    requires
        0 <= i <= lines.len(),
        forall|k: int| i <= k < lines.len() ==> parse_line_spec(#[trigger] lines[k]) is Some,
    ensures
        parse_from(lines, i) is Ok,
        parse_from(lines, i)->Ok_0 == Seq::new(
            (lines.len() - i) as nat,
            |k: int| parse_line_spec(lines[i + k])->0,
        ),
    decreases lines.len() - i,
{
    if i < lines.len() {
        lemma_parse_from_ok(lines, i + 1);
        let l = parse_line_spec(lines[i])->0;
        let rest = parse_from(lines, i + 1)->Ok_0;
        assert(seq![l] + rest =~= Seq::new(
            (lines.len() - i) as nat,
            |k: int| parse_line_spec(lines[i + k])->0,
        ));
    } else {
        assert(parse_from(lines, i)->Ok_0 =~= Seq::new(
            (lines.len() - i) as nat,
            |k: int| parse_line_spec(lines[i + k])->0,
        ));
    }
}

/// If the lines before `j` parse and line `j` does not, the suffix parse
/// fails at `j` exactly.
proof fn lemma_parse_from_err(lines: Seq<Seq<char>>, i: int, j: int)
    requires
        0 <= i <= j < lines.len(),
        forall|k: int| i <= k < j ==> parse_line_spec(#[trigger] lines[k]) is Some,
        parse_line_spec(lines[j]) is None,
    ensures
        parse_from(lines, i) == Err::<Seq<LogV>, int>(j),
    decreases j - i,
{
    if i < j {
        lemma_parse_from_err(lines, i + 1, j);
    }
}

proof fn lemma_parse_from_ok_inv(lines: Seq<Seq<char>>, i: int)
    requires
        0 <= i <= lines.len(),
        parse_from(lines, i) is Ok,
    ensures
        forall|k: int| i <= k < lines.len() ==> parse_line_spec(#[trigger] lines[k]) is Some,
        parse_from(lines, i)->Ok_0.len() == lines.len() - i,
        forall|k: int|
            0 <= k < lines.len() - i ==> Some(#[trigger] parse_from(lines, i)->Ok_0[k])
                == parse_line_spec(lines[i + k]),
    decreases lines.len() - i,
{
    if i < lines.len() {
        lemma_parse_from_ok_inv(lines, i + 1);
        let l = parse_line_spec(lines[i])->0;
        let rest = parse_from(lines, i + 1)->Ok_0;
        assert(parse_from(lines, i)->Ok_0 == seq![l] + rest);
        assert forall|k: int| 0 <= k < lines.len() - i implies Some(
            #[trigger] parse_from(lines, i)->Ok_0[k],
        ) == parse_line_spec(lines[i + k]) by {
            if k == 0 {
                assert(parse_line_spec(lines[i]) is Some);
                assert((seq![l] + rest)[0] == l);
            } else {
                assert((seq![l] + rest)[k] == rest[k - 1]);
                assert(Some(rest[k - 1]) == parse_line_spec(lines[(i + 1) + (k - 1)]));
            }
        }
    }
}

/// A successful patch leaves the store's records exactly as they were,
/// with only the last record's end advanced to the patch instant. This
/// The last line a patch writes: the first three columns of the old
/// last line, then the new timestamp as the end column.
spec fn patched_line(s: Seq<char>, ts: int) -> Seq<char> {
    text::joined(split_spec(last_record_line(s), '\t').drop_last().push(dec_seq(ts)), '\t')
}

/// At the level of lines: a patch replaces the last line by the same
/// columns with the new end, and leaves every other line alone.
#[verifier::rlimit(60)]
proof fn lemma_patch_lines(s: Seq<char>, ts: int)
    requires
        patchable(s),
        0 <= ts,
    ensures
        ({
            let lines = store_lines(s);
            let fields = split_spec(last_record_line(s), '\t');
            &&& lines.len() == split_spec(s, '\n').len() - 1
            &&& last_record_line(s) == lines[lines.len() - 1]
            &&& store_lines(patched(s, ts)) == lines.drop_last().push(patched_line(s, ts))
            &&& split_spec(patched_line(s, ts), '\t') == fields.drop_last().push(dec_seq(ts))
        }),
{
    let parts = split_spec(s, '\n');
    let lines = store_lines(s);
    let m = lines.len();
    text::lemma_split_basic(s, '\n');
    assert(parts.last().len() == 0);
    assert(lines == parts.drop_last());
    assert(forall|k: int| 0 <= k < m ==> lines[k] == #[trigger] parts[k]);
    assert(m >= 2);
    let ll = last_record_line(s);
    assert(ll == lines[m - 1]);

    // Decompose the text into its lines and the last line into its
    // columns.
    text::lemma_join_split(s, '\n');
    assert(s == text::joined(parts, '\n'));
    assert(s == text::joined(lines, '\n').push('\n') + parts.last());
    assert(s =~= text::joined(lines, '\n').push('\n'));
    let a = text::joined(lines.drop_last(), '\n');
    assert(text::joined(lines, '\n') == a.push('\n') + ll);

    let fields = split_spec(ll, '\t');
    assert(fields.len() == 4);
    text::lemma_join_split(ll, '\t');
    assert(ll == text::joined(fields, '\t'));
    let h = text::joined(fields.drop_last(), '\t');
    let f3 = fields[3];
    assert(fields.last() == f3);
    assert(ll == h.push('\t') + f3);

    // The cut point of the patch is exactly the end of the third
    // column's tab.
    let cut = s.len() - 1 - f3.len();
    assert(s.len() == a.len() + 1 + ll.len() + 1);
    assert(cut == a.len() + 1 + h.len() + 1);
    assert(s.take(cut) =~= a.push('\n') + h.push('\t'));
    let nl = patched_line(s, ts);
    assert(fields.drop_last().push(dec_seq(ts)).drop_last() =~= fields.drop_last());
    assert(nl == h.push('\t') + dec_seq(ts));
    let lines2 = lines.drop_last().push(nl);
    assert(lines2.drop_last() =~= lines.drop_last());
    assert(text::joined(lines2, '\n') == a.push('\n') + nl);
    assert(patched(s, ts) == s.take(cut) + dec_seq(ts) + seq!['\n']);
    assert(patched(s, ts) =~= text::joined(lines2, '\n').push('\n'));
    assert(lines2.push(Seq::<char>::empty()).drop_last() =~= lines2);
    assert(lines2.push(Seq::<char>::empty()).last() == Seq::<char>::empty());
    assert(text::joined(lines2.push(Seq::<char>::empty()), '\n') =~= text::joined(
        lines2,
        '\n',
    ).push('\n'));

    // Splitting the patched text recovers the patched lines.
    text::lemma_dec_seq_val(ts);
    text::lemma_dec_seq_no_tab_nl(ts);
    assert(h =~= ll.take(h.len() as int));
    assert forall|i: int, j: int|
        0 <= i < lines2.push(Seq::<char>::empty()).len() && 0 <= j < lines2.push(
            Seq::<char>::empty(),
        )[i].len() implies #[trigger] lines2.push(Seq::<char>::empty())[i][j] != '\n' by {
        let parts2 = lines2.push(Seq::<char>::empty());
        if i < m - 1 {
            assert(parts2[i] == lines[i]);
        } else if i == m - 1 {
            assert(parts2[i] == nl);
            if j < h.len() + 1 {
                assert(nl[j] == ll[j]);
            } else {
                assert(nl[j] == dec_seq(ts)[j - h.len() - 1]);
            }
        } else {
            assert(parts2[i].len() == 0);
        }
    }
    text::lemma_split_of_joined(lines2.push(Seq::<char>::empty()), '\n');
    assert(split_spec(patched(s, ts), '\n') == lines2.push(Seq::<char>::empty()));
    assert(store_lines(patched(s, ts)) =~= lines2);

    // Splitting the new last line recovers its columns.
    text::lemma_split_basic(ll, '\t');
    assert forall|i: int, j: int|
        0 <= i < fields.drop_last().push(dec_seq(ts)).len() && 0 <= j < fields.drop_last().push(
            dec_seq(ts),
        )[i].len() implies #[trigger] fields.drop_last().push(dec_seq(ts))[i][j] != '\t' by {
        let fs2 = fields.drop_last().push(dec_seq(ts));
        if i < 3 {
            assert(fs2[i] == fields[i]);
        } else {
            assert(fs2[i] == dec_seq(ts));
        }
    }
    text::lemma_split_of_joined(fields.drop_last().push(dec_seq(ts)), '\t');
}

/// A successful patch leaves the store's records exactly as they were,
/// with only the last record's end advanced to the patch instant. This
/// is the crash-resilience core: re-stamping the open record's end on
/// every tick never disturbs any closed record.
pub proof fn lemma_patch_preserves_records(s: Seq<char>, ts: int)
    requires
        patchable(s),
        parse_store_spec(s) is Ok,
        parse_store_spec(s)->Ok_0.len() >= 1,
        0 <= ts <= i64::MAX,
        parse_store_spec(s)->Ok_0.last().start <= ts,
    ensures
        parse_store_spec(patched(s, ts)) is Ok,
        ({
            let old_recs = parse_store_spec(s)->Ok_0;
            let last = old_recs.last();
            parse_store_spec(patched(s, ts))->Ok_0 == old_recs.update(
                old_recs.len() - 1,
                LogV { class: last.class, name: last.name, start: last.start, end: Some(ts) },
            )
        }),
{
    lemma_patch_lines(s, ts);
    let old_recs = parse_store_spec(s)->Ok_0;
    let lines = store_lines(s);
    let m = lines.len();
    assert(m >= 2);
    lemma_parse_from_ok_inv(lines, 1);
    assert(old_recs == parse_from(lines, 1)->Ok_0);
    assert(old_recs.len() == m - 1);
    let ll = last_record_line(s);
    assert(old_recs.last() == old_recs[m - 2]);
    assert(Some(old_recs[m - 2]) == parse_line_spec(lines[1 + (m - 2)]));
    assert(Some(old_recs.last()) == parse_line_spec(ll));
    let last = old_recs.last();

    // The new last line parses to the old record with the new end.
    let fields = split_spec(ll, '\t');
    let nl = patched_line(s, ts);
    let fields2 = split_spec(nl, '\t');
    assert(fields2 == fields.drop_last().push(dec_seq(ts)));
    assert(fields2.len() == 4);
    assert(fields2[0] == fields[0] && fields2[1] == fields[1] && fields2[2] == fields[2]);
    assert(fields2[3] == dec_seq(ts));
    text::lemma_dec_seq_val(ts);
    assert(last.start == dec_val(fields[2]));
    assert(parse_line_spec(nl) == Some(
        LogV { class: last.class, name: last.name, start: last.start, end: Some(ts) },
    ));

    // Every line of the patched text parses; the records line up.
    let lines2 = lines.drop_last().push(nl);
    assert(store_lines(patched(s, ts)) == lines2);
    assert forall|k: int| 1 <= k < lines2.len() implies parse_line_spec(
        #[trigger] lines2[k],
    ) is Some by {
        if k < m - 1 {
            assert(lines2[k] == lines[k]);
        } else {
            assert(lines2[k] == nl);
        }
    }
    lemma_parse_from_ok(lines2, 1);
    assert(lines2.len() == m);
    assert(parse_store_spec(patched(s, ts)) == parse_from(lines2, 1));
    let new_recs = parse_from(lines2, 1)->Ok_0;
    assert(new_recs == Seq::new((m - 1) as nat, |k: int| parse_line_spec(lines2[1 + k])->0));
    assert forall|k: int| 0 <= k < m - 1 implies new_recs[k] == old_recs.update(
        old_recs.len() - 1,
        LogV { class: last.class, name: last.name, start: last.start, end: Some(ts) },
    )[k] by {
        if k < m - 2 {
            assert(lines2[1 + k] == lines[1 + k]);
            assert(Some(old_recs[k]) == parse_line_spec(lines[1 + k]));
        } else {
            assert(lines2[1 + k] == nl);
        }
    }
    assert(new_recs =~= old_recs.update(
        old_recs.len() - 1,
        LogV { class: last.class, name: last.name, start: last.start, end: Some(ts) },
    ));
}

/// Appending a freshly opened record's line to a newline-terminated,
/// parseable store keeps it parseable, and its records are the old ones
/// followed by the new record, still open. Together with the patch law
/// this covers every write the tracker performs.
#[verifier::rlimit(60)]
pub proof fn lemma_append_preserves_records(s: Seq<char>, l: LogV)
    requires
        s.len() > 0,
        s.last() == '\n',
        parse_store_spec(s) is Ok,
        l.wf(),
        l.start <= i64::MAX,
    ensures
        parse_store_spec(s + csv_line_spec(l) + seq!['\n']) is Ok,
        parse_store_spec(s + csv_line_spec(l) + seq!['\n'])->Ok_0 == parse_store_spec(
            s,
        )->Ok_0.push(LogV { class: l.class, name: l.name, start: l.start, end: None }),
        patchable(s + csv_line_spec(l) + seq!['\n']),
{
    let old_recs = parse_store_spec(s)->Ok_0;
    let parts = split_spec(s, '\n');
    let lines = store_lines(s);
    let m = lines.len();
    text::lemma_split_basic(s, '\n');
    assert(parts.last().len() == 0);
    assert(lines == parts.drop_last());
    assert(forall|k: int| 0 <= k < m ==> lines[k] == #[trigger] parts[k]);
    text::lemma_split_basic(s.drop_last(), '\n');
    assert(count_ch(s.drop_last(), '\n') >= 0);
    assert(count_ch(s, '\n') >= 1);
    assert(m >= 1);
    lemma_parse_from_ok_inv(lines, 1);
    assert(old_recs.len() == m - 1);

    // The new line splits into its four columns.
    let nl = csv_line_spec(l);
    let fs = seq![l.class, l.name, dec_seq(l.start), Seq::<char>::empty()];
    text::lemma_dec_seq_val(l.start);
    text::lemma_dec_seq_no_tab_nl(l.start);
    let fs3 = seq![l.class, l.name, dec_seq(l.start)];
    let fs2 = seq![l.class, l.name];
    assert(fs.drop_last() =~= fs3);
    assert(fs3.drop_last() =~= fs2);
    assert(fs2.drop_last() =~= seq![l.class]);
    assert(text::joined(seq![l.class], '\t') == l.class);
    assert(text::joined(fs2, '\t') == l.class.push('\t') + l.name);
    assert(text::joined(fs3, '\t') == (l.class.push('\t') + l.name).push('\t') + dec_seq(l.start));
    assert(text::joined(fs, '\t') == text::joined(fs3, '\t').push('\t') + Seq::<char>::empty());
    assert(text::joined(fs, '\t') =~= nl);
    assert forall|i: int, j: int| 0 <= i < fs.len() && 0 <= j < fs[i].len() implies #[trigger] fs[i][j]
        != '\t' by {
        if i == 0 {
            assert(fs[i] == l.class);
        } else if i == 1 {
            assert(fs[i] == l.name);
        } else if i == 2 {
            assert(fs[i] == dec_seq(l.start));
            assert(text::is_digit(dec_seq(l.start)[j]));
        }
    }
    text::lemma_split_of_joined(fs, '\t');
    assert(split_spec(nl, '\t') == fs);
    let new_rec = LogV { class: l.class, name: l.name, start: l.start, end: None };
    assert(parse_line_spec(nl) == Some(new_rec));

    // The appended text splits into the old lines plus the new line.
    text::lemma_join_split(s, '\n');
    assert(s == text::joined(parts, '\n'));
    assert(s =~= text::joined(lines, '\n').push('\n'));
    let s2 = s + nl + seq!['\n'];
    let lines2 = lines.push(nl);
    assert(text::joined(lines2, '\n') =~= text::joined(lines, '\n').push('\n') + nl) by {
        assert(lines2.drop_last() =~= lines);
    }
    assert(lines2.push(Seq::<char>::empty()).drop_last() =~= lines2);
    assert(text::joined(lines2.push(Seq::<char>::empty()), '\n') =~= text::joined(
        lines2,
        '\n',
    ).push('\n'));
    assert(s2 =~= text::joined(lines2.push(Seq::<char>::empty()), '\n'));
    assert forall|i: int, j: int|
        0 <= i < lines2.push(Seq::<char>::empty()).len() && 0 <= j < lines2.push(
            Seq::<char>::empty(),
        )[i].len() implies #[trigger] lines2.push(Seq::<char>::empty())[i][j] != '\n' by {
        let parts2 = lines2.push(Seq::<char>::empty());
        if i < m {
            assert(parts2[i] == lines[i]);
        } else if i == m {
            assert(parts2[i] == nl);
            if j < nl.len() - dec_seq(l.start).len() - 1 {
            }
            if 0 <= j < l.class.len() {
                assert(nl[j] == l.class[j]);
            } else if j == l.class.len() {
                assert(nl[j] == '\t');
            } else if j < l.class.len() + 1 + l.name.len() {
                assert(nl[j] == l.name[j - l.class.len() - 1]);
            } else if j == l.class.len() + 1 + l.name.len() {
                assert(nl[j] == '\t');
            } else if j < nl.len() - 1 {
                assert(nl[j] == dec_seq(l.start)[j - l.class.len() - l.name.len() - 2]);
                assert(text::is_digit(nl[j]));
            } else {
                assert(nl[j] == '\t');
            }
        } else {
            assert(parts2[i].len() == 0);
        }
    }
    text::lemma_split_of_joined(lines2.push(Seq::<char>::empty()), '\n');
    assert(split_spec(s2, '\n') == lines2.push(Seq::<char>::empty()));
    assert(store_lines(s2) =~= lines2);

    // Every line still parses; the new record lands at the end.
    assert forall|k: int| 1 <= k < lines2.len() implies parse_line_spec(
        #[trigger] lines2[k],
    ) is Some by {
        if k < m {
            assert(lines2[k] == lines[k]);
        } else {
            assert(lines2[k] == nl);
        }
    }
    lemma_parse_from_ok(lines2, 1);
    let new_recs = parse_from(lines2, 1)->Ok_0;
    assert(new_recs == Seq::new(m as nat, |k: int| parse_line_spec(lines2[1 + k])->0));
    assert forall|k: int| 0 <= k < m implies new_recs[k] == old_recs.push(new_rec)[k] by {
        if k < m - 1 {
            assert(lines2[1 + k] == lines[1 + k]);
            assert(Some(old_recs[k]) == parse_line_spec(lines[1 + k]));
        } else {
            assert(lines2[1 + k] == nl);
        }
    }
    assert(new_recs =~= old_recs.push(new_rec));

    // The appended text accepts the end-stamping patch.
    assert(split_spec(s2, '\n').len() == m + 2);
    assert(last_record_line(s2) == lines2[m as int]);
    assert(s2.last() == '\n');
    assert(patchable(s2));
}

/// Opening a session is a sound store write: appending the fresh
/// record's line to a parseable store and then stamping its end leaves
/// the old records untouched and adds the new session, closed at the
/// stamp instant. This is the whole write path of a session opening.
pub proof fn lemma_open_session_round_trip(s: Seq<char>, l: LogV, now: int)
    requires
        s.len() > 0,
        s.last() == '\n',
        parse_store_spec(s) is Ok,
        l.wf(),
        l.start <= now <= i64::MAX,
    ensures
        ({
            let appended = s + csv_line_spec(l) + seq!['\n'];
            &&& parse_store_spec(patched(appended, now)) is Ok
            &&& parse_store_spec(patched(appended, now))->Ok_0 == parse_store_spec(
                s,
            )->Ok_0.push(LogV { class: l.class, name: l.name, start: l.start, end: Some(now) })
        }),
{
    lemma_append_preserves_records(s, l);
    let appended = s + csv_line_spec(l) + seq!['\n'];
    let mid = parse_store_spec(appended)->Ok_0;
    assert(mid.last() == (LogV { class: l.class, name: l.name, start: l.start, end: None }));
    lemma_patch_preserves_records(appended, now);
    assert(parse_store_spec(patched(appended, now))->Ok_0 =~= parse_store_spec(s)->Ok_0.push(
        LogV { class: l.class, name: l.name, start: l.start, end: Some(now) },
    ));
}

/// One store write of the tracker, at the level of the persisted text:
/// either the last record's end is refreshed, or a fresh record is
/// appended and its end stamped at once.
pub enum StoreWrite {
    Refresh { ts: int },
    Open { l: LogV, ts: int },
}

/// The text after one write.
pub open spec fn apply_write(s: Seq<char>, w: StoreWrite) -> Seq<char> {
    match w {
        StoreWrite::Refresh { ts } => patched(s, ts),
        StoreWrite::Open { l, ts } => patched(s + csv_line_spec(l) + seq!['\n'], ts),
    }
}

/// The text after a sequence of writes, applied left to right.
pub open spec fn apply_writes(s: Seq<char>, ws: Seq<StoreWrite>) -> Seq<char>
    decreases ws.len(),
{
    if ws.len() == 0 {
        s
    } else {
        apply_writes(apply_write(s, ws.first()), ws.drop_first())
    }
}

/// What one write asks of the records already on disk: a refresh needs
/// a record to stamp, starting no later than the stamp; an opening
/// needs a well-formed record stamped no earlier than its own start.
pub open spec fn write_ok(recs: Seq<LogV>, w: StoreWrite) -> bool {
    match w {
        StoreWrite::Refresh { ts } => recs.len() >= 1 && 0 <= ts <= i64::MAX && recs.last().start
            <= ts,
        StoreWrite::Open { l, ts } => l.wf() && l.start <= ts <= i64::MAX,
    }
}

/// The records after one write.
pub open spec fn records_after(recs: Seq<LogV>, w: StoreWrite) -> Seq<LogV> {
    match w {
        StoreWrite::Refresh { ts } => recs.update(
            recs.len() - 1,
            LogV {
                class: recs.last().class,
                name: recs.last().name,
                start: recs.last().start,
                end: Some(ts),
            },
        ),
        StoreWrite::Open { l, ts } => recs.push(
            LogV { class: l.class, name: l.name, start: l.start, end: Some(ts) },
        ),
    }
}

/// Every write of the sequence finds the records its rule asks for.
pub open spec fn writes_ok(recs: Seq<LogV>, ws: Seq<StoreWrite>) -> bool
    decreases ws.len(),
{
    if ws.len() == 0 {
        true
    } else {
        write_ok(recs, ws.first()) && writes_ok(records_after(recs, ws.first()), ws.drop_first())
    }
}

/// The records after a sequence of writes.
pub open spec fn records_after_all(recs: Seq<LogV>, ws: Seq<StoreWrite>) -> Seq<LogV>
    decreases ws.len(),
{
    if ws.len() == 0 {
        recs
    } else {
        records_after_all(records_after(recs, ws.first()), ws.drop_first())
    }
}

/// A newline-terminated, parseable store with at least one record
/// accepts the end-stamping patch: its last line is a record line, and
/// record lines have exactly the four columns.
proof fn lemma_parseable_patchable(s: Seq<char>)
    requires
        s.len() > 0,
        s.last() == '\n',
        parse_store_spec(s) is Ok,
        parse_store_spec(s)->Ok_0.len() >= 1,
    ensures
        patchable(s),
{
    let parts = split_spec(s, '\n');
    let lines = store_lines(s);
    text::lemma_split_basic(s, '\n');
    text::lemma_split_trailing(s, '\n');
    assert(lines == parts.drop_last());
    assert(forall|k: int| 0 <= k < lines.len() ==> lines[k] == #[trigger] parts[k]);
    assert(lines.len() >= 1);
    lemma_parse_from_ok_inv(lines, 1);
    let m = lines.len();
    assert(m >= 2);
    assert(last_record_line(s) == lines[m - 1]);
    assert(parse_line_spec(lines[m - 1]) is Some);
    assert(split_spec(lines[m - 1], '\t').len() == 4);
}

proof fn lemma_write_step(s: Seq<char>, w: StoreWrite)
    requires
        s.len() > 0,
        s.last() == '\n',
        parse_store_spec(s) is Ok,
        write_ok(parse_store_spec(s)->Ok_0, w),
    ensures
        apply_write(s, w).len() > 0,
        apply_write(s, w).last() == '\n',
        parse_store_spec(apply_write(s, w)) is Ok,
        parse_store_spec(apply_write(s, w))->Ok_0 == records_after(parse_store_spec(s)->Ok_0, w),
{
    match w {
        StoreWrite::Refresh { ts } => {
            lemma_parseable_patchable(s);
            lemma_patch_preserves_records(s, ts);
            assert(patched(s, ts).last() == '\n');
        },
        StoreWrite::Open { l, ts } => {
            lemma_open_session_round_trip(s, l, ts);
            let appended = s + csv_line_spec(l) + seq!['\n'];
            assert(patched(appended, ts).last() == '\n');
        },
    }
}

/// The store invariant over a whole run. Starting from any
/// newline-terminated, parseable store, a run of tracker writes whose
/// preconditions hold leaves the store parseable after every step, with
/// exactly the records the per-write rules fold out. Every write stamps
/// the end it writes, so a store whose records all carry an end keeps
/// that shape: no record but the transiently appended last one is ever
/// open, and at rest none is.
pub proof fn lemma_run_preserves_store(s: Seq<char>, ws: Seq<StoreWrite>)
    requires
        s.len() > 0,
        s.last() == '\n',
        parse_store_spec(s) is Ok,
        writes_ok(parse_store_spec(s)->Ok_0, ws),
    ensures
        apply_writes(s, ws).len() > 0,
        apply_writes(s, ws).last() == '\n',
        parse_store_spec(apply_writes(s, ws)) is Ok,
        parse_store_spec(apply_writes(s, ws))->Ok_0 == records_after_all(
            parse_store_spec(s)->Ok_0,
            ws,
        ),
        (forall|k: int|
            0 <= k < parse_store_spec(s)->Ok_0.len() ==> (#[trigger] parse_store_spec(
                s,
            )->Ok_0[k]).end is Some) ==> forall|k: int|
            0 <= k < parse_store_spec(apply_writes(s, ws))->Ok_0.len() ==> (
            #[trigger] parse_store_spec(apply_writes(s, ws))->Ok_0[k]).end is Some,
    decreases ws.len(),
{
    if ws.len() > 0 {
        let w = ws.first();
        let recs = parse_store_spec(s)->Ok_0;
        lemma_write_step(s, w);
        lemma_run_preserves_store(apply_write(s, w), ws.drop_first());
        assert forall|k: int|
            (forall|k2: int| 0 <= k2 < recs.len() ==> (#[trigger] recs[k2]).end is Some) && 0 <= k
                < records_after(recs, w).len() implies (#[trigger] records_after(recs, w)[k]).end
            is Some by {
            match w {
                StoreWrite::Refresh { ts } => {
                    if k < recs.len() - 1 {
                        assert(records_after(recs, w)[k] == recs[k]);
                    }
                },
                StoreWrite::Open { l, ts } => {
                    if k < recs.len() {
                        assert(records_after(recs, w)[k] == recs[k]);
                    }
                },
            }
        }
    }
}

/// The line whose `end` column a patch rewrites: the last line before
/// the final newline.
pub open spec fn last_record_line(s: Seq<char>) -> Seq<char> {
    let parts = split_spec(s, '\n');
    parts[parts.len() - 2]
}

/// A text the patch operation accepts: newline-terminated, holding at
/// least a header line and one further line, whose last line has exactly
/// the four expected columns.
pub open spec fn patchable(s: Seq<char>) -> bool {
    &&& s.len() > 0
    &&& s.last() == '\n'
    &&& split_spec(s, '\n').len() >= 3
    &&& split_spec(last_record_line(s), '\t').len() == 4
}

/// The patched text: every byte up to and including the tab before the
/// `end` column unchanged, then the new timestamp, then the final
/// newline.
pub open spec fn patched(s: Seq<char>, ts: int) -> Seq<char> {
    let f3 = split_spec(last_record_line(s), '\t')[3];
    s.take(s.len() - 1 - f3.len()) + dec_seq(ts) + seq!['\n']
}

/// The line a refused patch names: the one-based number of the text's
/// last line, or 1 when the text holds no line at all.
pub open spec fn patch_err_line(s: Seq<char>) -> int {
    if store_lines(s).len() == 0 {
        1
    } else {
        store_lines(s).len() as int
    }
}

/// Rewrites the `end` column of the last line to `ts`. Only that column
/// and nothing else changes; any text the patch would damage is refused,
/// naming its last line.
pub fn patch_last_end(contents: &str, ts: i64) -> (r: Result<String, TwtError>)
    requires
        0 <= ts,
    ensures
        match r {
            Ok(out) => patchable(contents@) && out@ == patched(contents@, ts as int),
            Err(e) => !patchable(contents@) && (e matches TwtError::Corrupt { line } && line as int
                == patch_err_line(contents@)),
        },
{
    let s = contents;
    let n = s.unicode_len();
    if n == 0 {
        return Err(TwtError::Corrupt { line: 1 });
    }
    // Count the lines, to name the last one if the patch is refused.
    let mut cnt: usize = 0;
    let mut k: usize = 0;
    while k < n
        invariant
            0 <= k <= n,
            n == s@.len(),
            cnt == count_ch(s@.take(k as int), '\n'),
            cnt <= k,
        decreases n - k,
    {
        proof {
            assert(s@.take(k + 1).drop_last() =~= s@.take(k as int));
            assert(s@.take(k + 1).last() == s@[k as int]);
        }
        if s.get_char(k) == '\n' {
            cnt = cnt + 1;
        }
        k = k + 1;
    }
    proof {
        assert(s@.take(n as int) =~= s@);
        lemma_split_basic(s@, '\n');
        text::lemma_split_trailing(s@, '\n');
    }
    if s.get_char(n - 1) != '\n' {
        proof {
            assert(store_lines(s@) == split_spec(s@, '\n'));
            assert(count_ch(s@, '\n') == count_ch(s@.drop_last(), '\n'));
            text::lemma_count_le(s@.drop_last(), '\n');
        }
        return Err(TwtError::Corrupt { line: cnt + 1 });
    }
    proof {
        assert(store_lines(s@) == split_spec(s@, '\n').drop_last());
        assert(count_ch(s@, '\n') == count_ch(s@.drop_last(), '\n') + 1);
        text::lemma_count_le(s@.drop_last(), '\n');
        assert(cnt >= 1);
        assert(patch_err_line(s@) == cnt as int);
    }
    proof {
        lemma_split_at_last_sep(s@, '\n', n - 1);
        assert(s@.take(n - 1) =~= s@.drop_last());
    }
    let ghost head = s@.take(n - 1);
    // Find the newline that opens the last line, scanning from the end.
    let mut j: usize = n - 1;
    let mut found: bool = false;
    while j > 0 && !found
        invariant
            0 <= j <= n - 1,
            n == s@.len(),
            !found ==> forall|k: int| j <= k < n - 1 ==> s@[k] != '\n',
            found ==> j >= 1 && s@[j - 1] == '\n' && forall|k: int| j <= k < n - 1 ==> s@[k]
                != '\n',
        decreases (if found { 0int } else { j + 1 }),
    {
        if s.get_char(j - 1) == '\n' {
            found = true;
        } else {
            j = j - 1;
        }
    }
    if !found {
        proof {
            lemma_split_whole(head, '\n');
            assert(split_spec(s@, '\n').len() == 2);
        }
        return Err(TwtError::Corrupt { line: cnt });
    }
    let a = j;
    proof {
        lemma_split_at_last_sep(head, '\n', a - 1);
        lemma_split_basic(head.take(a - 1), '\n');
        assert(head.skip(a as int) =~= s@.subrange(a as int, n - 1));
        assert(last_record_line(s@) == s@.subrange(a as int, n - 1));
        assert(split_spec(s@, '\n').len() >= 3);
    }
    let ghost ll = last_record_line(s@);
    // Count the tabs of the last line and remember the last one.
    let mut i: usize = a;
    let mut tabs: usize = 0;
    let mut q: usize = 0;
    let mut qset: bool = false;
    while i < n - 1
        invariant
            a <= i <= n - 1,
            n == s@.len(),
            n >= 1,
            ll == s@.subrange(a as int, n - 1),
            tabs == count_ch(ll.take(i - a), '\t'),
            tabs <= i - a,
            !qset ==> tabs == 0,
            qset ==> a <= q < i && s@[q as int] == '\t' && count_ch(ll.take(q - a), '\t')
                == tabs - 1 && forall|k: int| q < k < i ==> s@[k] != '\t',
        decreases n - 1 - i,
    {
        proof {
            assert(ll.take(i - a + 1).drop_last() =~= ll.take(i - a));
            assert(ll.take(i - a + 1).last() == s@[i as int]);
        }
        if s.get_char(i) == '\t' {
            q = i;
            qset = true;
            tabs = tabs + 1;
        }
        i = i + 1;
    }
    proof {
        assert(ll.take((n - 1) - a as int) =~= ll);
        lemma_split_basic(ll, '\t');
    }
    if tabs != 3 {
        return Err(TwtError::Corrupt { line: cnt });
    }
    proof {
        lemma_split_at_last_sep(ll, '\t', q - a);
        lemma_split_basic(ll.take(q - a), '\t');
        assert(split_spec(ll, '\t')[3] == ll.skip(q - a + 1));
        assert(ll.skip(q - a + 1).len() == (n - 1) - (q + 1));
        assert(patchable(s@));
    }
    let mut out = String::from_str(s.substring_char(0, q + 1));
    let ts_str = text::fmt_u64(ts as u64);
    out.append(ts_str.as_str());
    proof {
        reveal_strlit("\n");
    }
    out.append("\n");
    proof {
        assert(s@.subrange(0, q + 1) =~= s@.take(q + 1));
        assert("\n"@ =~= seq!['\n']);
        assert(out@ =~= patched(s@, ts as int));
    }
    Ok(out)
}

} // verus!
