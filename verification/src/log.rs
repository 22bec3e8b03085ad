//! The log store: install records parsed from the tab-separated install
//! log, the idempotent "mark removed" rewrite of the log text, and
//! human-readable size formatting.
//!
//! A log line is `timestamp \t repo \t path`, with an optional fourth
//! field holding the literal marker `removed`. Reading and writing the
//! log file itself is left to the caller: the functions here work on the
//! file's text.

use crate::text::{
    dec_str, digit_char, digit_str, join_with, lemma_join_last_char, lemma_split_on_append,
    lemma_split_on_join, lemma_split_on_len, lemma_split_on_sep_free, split_lines,
    split_lines_str, split_on, split_str, str_eq, u64_dec_str,
};
use vstd::prelude::*;
use vstd::string::StringExecFns;

verus! {

/// A point in time: seconds since the Unix epoch, with the sub-second
/// part in nanoseconds.
#[derive(Clone, Copy, PartialEq, Eq, Structural, Debug)]
pub struct Timestamp {
    pub secs: i64,
    pub nanos: u32,
}

/// One parsed line of the install log: one installed artifact.
#[derive(Debug)]
pub struct InstallEntry {
    pub timestamp: Timestamp,
    pub repo: String,
    pub path: String,
    pub removed: bool,
    /// Byte count of the artifact on disk, resolved by the caller from
    /// the live filesystem; `None` when removed or unreadable.
    pub size: Option<u64>,
}

/// The mathematical model of an install record.
pub struct RecordModel {
    pub ts_secs: int,
    pub ts_nanos: int,
    pub repo: Seq<char>,
    pub path: Seq<char>,
    pub removed: bool,
    pub size: Option<u64>,
}

impl View for InstallEntry {
    type V = RecordModel;

    open spec fn view(&self) -> RecordModel {
        RecordModel {
            ts_secs: self.timestamp.secs as int,
            ts_nanos: self.timestamp.nanos as int,
            repo: self.repo@,
            path: self.path@,
            removed: self.removed,
            size: self.size,
        }
    }
}

impl Clone for InstallEntry {
    fn clone(&self) -> (r: Self)
        ensures
            r == *self,
    {
        InstallEntry {
            timestamp: self.timestamp,
            repo: self.repo.clone(),
            path: self.path.clone(),
            removed: self.removed,
            size: self.size,
        }
    }
}

/// The literal marker that flags a log line as removed.
pub open spec fn removed_marker() -> Seq<char> {
    seq!['r', 'e', 'm', 'o', 'v', 'e', 'd']
}

/// A log line after the mark-removed rewrite: lines with exactly three
/// tab-separated fields whose third field is `p` gain a fourth field
/// holding the marker; every other line passes through unchanged.
pub open spec fn marked_line(l: Seq<char>, p: Seq<char>) -> Seq<char> {
    let parts = split_on(l, '\t');
    if parts.len() == 3 && parts[2] == p {
        l + seq!['\t'] + removed_marker()
    } else {
        l
    }
}

/// Every line of the log, after the mark-removed rewrite.
pub open spec fn marked_lines(ls: Seq<Seq<char>>, p: Seq<char>) -> Seq<Seq<char>> {
    ls.map_values(|l: Seq<char>| marked_line(l, p))
}

/// The whole log text after the mark-removed rewrite for path `p`.
pub open spec fn mark_removed_log(c: Seq<char>, p: Seq<char>) -> Seq<char> {
    join_with(marked_lines(split_lines(c), p), '\n')
}

/// Rewrite one line of the log for the mark-removed mutation.
fn mark_line(line: &String, path: &str) -> (r: String)
    ensures
        r@ == marked_line(line@, path@),
{
    let parts = split_str(line.as_str(), '\t');
    proof {
        assert(parts@.map_values(|t: String| t@).len() == split_on(line@, '\t').len());
    }
    if parts.len() == 3 && str_eq(parts[2].as_str(), path) {
        proof {
            assert(parts@.map_values(|t: String| t@)[2] == parts@[2]@);
        }
        let mut r = line.clone();
        r.append("\tremoved");
        proof {
            reveal_strlit("\tremoved");
            assert("\tremoved"@ =~= seq!['\t'] + removed_marker());
        }
        r
    } else {
        proof {
            if parts.len() == 3 {
                assert(parts@.map_values(|t: String| t@)[2] == parts@[2]@);
            }
        }
        line.clone()
    }
}

/// Rewrite the log text so that every line with exactly three fields
/// whose path field equals `path` carries the `removed` marker. All
/// other lines, and the order of lines, are unchanged.
pub fn mark_removed_text(contents: &str, path: &str) -> (r: String)
    ensures
        r@ == mark_removed_log(contents@, path@),
{
    let lines = split_lines_str(contents);
    let ghost mapped = marked_lines(split_lines(contents@), path@);
    let mut out = String::new();
    let mut i: usize = 0;
    proof {
        assert(mapped.subrange(0, 0) =~= Seq::<Seq<char>>::empty());
    }
    while i < lines.len()
        invariant
            i <= lines.len(),
            lines@.map_values(|t: String| t@) == split_lines(contents@),
            mapped == marked_lines(split_lines(contents@), path@),
            out@ == join_with(mapped.subrange(0, i as int), '\n'),
        decreases lines.len() - i,
    {
        proof {
            assert(lines@.map_values(|t: String| t@)[i as int] == lines@[i as int]@);
            assert(mapped[i as int] == marked_line(lines@[i as int]@, path@));
        }
        let piece = mark_line(&lines[i], path);
        if i > 0 {
            out.append("\n");
            proof {
                reveal_strlit("\n");
            }
        }
        out.append(piece.as_str());
        proof {
            let pre = mapped.subrange(0, i as int);
            let cur = mapped.subrange(0, i + 1);
            assert(cur.drop_last() =~= pre);
            assert(cur.last() == mapped[i as int]);
            if i == 0 {
                assert(cur =~= seq![mapped[0]]);
                assert(join_with(cur, '\n') == mapped[0]);
            } else {
                assert(join_with(cur, '\n') == join_with(pre, '\n') + seq!['\n'] + mapped[
                    i as int
                ]);
                assert(out@ =~= join_with(pre, '\n') + seq!['\n'] + mapped[i as int]);
            }
        }
        i += 1;
    }
    proof {
        assert(mapped.subrange(0, lines@.len() as int) =~= mapped);
    }
    out
}

/// A scaled size rendered with one decimal place, from the size in
/// tenths of the unit.
pub open spec fn tenths_str(tenths: nat) -> Seq<char> {
    dec_str(tenths / 10) + seq!['.', digit_char((tenths % 10) as int)]
}

/// `s` bytes measured in tenths of a unit of `div` bytes, rounded half up.
pub open spec fn scaled_tenths(s: nat, div: nat) -> nat
    recommends
        div > 0,
{
    (10 * s + div / 2) / div
}

/// The human-readable rendering of an optional byte count: plain bytes
/// below 1 KiB, otherwise one decimal place in KB, MB or GB; `N/A` when
/// the size is unresolved.
pub open spec fn size_human_spec(size: Option<u64>) -> Seq<char> {
    match size {
        None => seq!['N', '/', 'A'],
        Some(b) => if b < 1024 {
            dec_str(b as nat) + seq![' ', 'B']
        } else if b < 1048576 {
            tenths_str(scaled_tenths(b as nat, 1024)) + seq![' ', 'K', 'B']
        } else if b < 1073741824 {
            tenths_str(scaled_tenths(b as nat, 1048576)) + seq![' ', 'M', 'B']
        } else {
            tenths_str(scaled_tenths(b as nat, 1073741824)) + seq![' ', 'G', 'B']
        },
    }
}

/// Render `s` bytes in tenths of the unit of `div` bytes.
fn scaled_str(s: u64, div: u64) -> (r: String)
    requires
        div == 1024 || div == 1048576 || div == 1073741824,
    ensures
        r@ == tenths_str(scaled_tenths(s as nat, div as nat)),
{
    let num: u128 = 10u128 * (s as u128) + ((div / 2) as u128);
    let t128: u128 = num / (div as u128);
    proof {
        vstd::arithmetic::div_mod::lemma_div_is_ordered_by_denominator(
            num as int,
            1024,
            div as int,
        );
        vstd::arithmetic::div_mod::lemma_div_is_ordered(
            num as int,
            10 * (u64::MAX as int) + 536870912,
            1024,
        );
    }
    let t: u64 = t128 as u64;
    let mut r = u64_dec_str(t / 10);
    r.append(".");
    r.append(digit_str(t % 10));
    proof {
        reveal_strlit(".");
        assert(t as nat == scaled_tenths(s as nat, div as nat));
        assert(r@ =~= tenths_str(scaled_tenths(s as nat, div as nat)));
    }
    r
}

impl InstallEntry {
    /// Render the entry's size as a human-readable string.
    pub fn size_human(&self) -> (r: String)
        ensures
            r@ == size_human_spec(self.size),
    {
        match self.size {
            None => {
                proof {
                    reveal_strlit("N/A");
                }
                let r = String::from_str("N/A");
                proof {
                    assert(r@ =~= seq!['N', '/', 'A']);
                }
                r
            },
            Some(s) => {
                if s < 1024 {
                    let mut r = u64_dec_str(s);
                    r.append(" B");
                    proof {
                        reveal_strlit(" B");
                        assert(r@ =~= dec_str(s as nat) + seq![' ', 'B']);
                    }
                    r
                } else if s < 1048576 {
                    let mut r = scaled_str(s, 1024);
                    r.append(" KB");
                    proof {
                        reveal_strlit(" KB");
                        assert(r@ =~= tenths_str(scaled_tenths(s as nat, 1024)) + seq![
                            ' ',
                            'K',
                            'B',
                        ]);
                    }
                    r
                } else if s < 1073741824 {
                    let mut r = scaled_str(s, 1048576);
                    r.append(" MB");
                    proof {
                        reveal_strlit(" MB");
                        assert(r@ =~= tenths_str(scaled_tenths(s as nat, 1048576)) + seq![
                            ' ',
                            'M',
                            'B',
                        ]);
                    }
                    r
                } else {
                    let mut r = scaled_str(s, 1073741824);
                    r.append(" GB");
                    proof {
                        reveal_strlit(" GB");
                        assert(r@ =~= tenths_str(scaled_tenths(s as nat, 1073741824)) + seq![
                            ' ',
                            'G',
                            'B',
                        ]);
                    }
                    r
                }
            },
        }
    }
}

/// What an RFC 3339 date-time string denotes: `None` when the string is
/// not a valid RFC 3339 date-time, otherwise the instant as seconds since
/// the Unix epoch and the sub-second part in nanoseconds.
pub uninterp spec fn rfc3339_instant(s: Seq<char>) -> Option<(int, int)>;

/// Relies on chrono's `DateTime::parse_from_rfc3339` together with its
/// `timestamp` and `timestamp_subsec_nanos` accessors: whether a string
/// parses as an RFC 3339 date-time, and which instant it denotes, depend
/// on the characters alone.
#[verifier::external_body]
fn parse_rfc3339(s: &str) -> (r: Option<Timestamp>)
    ensures
        r is Some <==> rfc3339_instant(s@) is Some,
        r is Some ==> r->Some_0.secs as int == rfc3339_instant(s@)->Some_0.0
            && r->Some_0.nanos as int == rfc3339_instant(s@)->Some_0.1,
{
    match chrono::DateTime::parse_from_rfc3339(s) {
        Ok(dt) => Some(Timestamp { secs: dt.timestamp(), nanos: dt.timestamp_subsec_nanos() }),
        Err(_) => None,
    }
}

/// The record a log line denotes: `None` for a line with fewer than three
/// tab-separated fields or a timestamp field that is not RFC 3339. The
/// record is removed exactly when a fourth field holds the marker; its
/// size is unresolved.
pub open spec fn parse_line(l: Seq<char>) -> Option<RecordModel> {
    let parts = split_on(l, '\t');
    if parts.len() < 3 {
        None
    } else {
        match rfc3339_instant(parts[0]) {
            None => None,
            Some(t) => Some(
                RecordModel {
                    ts_secs: t.0,
                    ts_nanos: t.1,
                    repo: parts[1],
                    path: parts[2],
                    removed: parts.len() >= 4 && parts[3] == removed_marker(),
                    size: None,
                },
            ),
        }
    }
}

/// The records of a sequence of log lines, in line order, lines that
/// denote no record skipped.
pub open spec fn parse_lines(ls: Seq<Seq<char>>) -> Seq<RecordModel>
    decreases ls.len(),
{
    if ls.len() == 0 {
        Seq::empty()
    } else {
        let rest = parse_lines(ls.drop_last());
        match parse_line(ls.last()) {
            Some(r) => rest.push(r),
            None => rest,
        }
    }
}

/// The models of a sequence of entries.
pub open spec fn models(s: Seq<InstallEntry>) -> Seq<RecordModel> {
    s.map_values(|e: InstallEntry| e@)
}

/// `a` is at or before `b` in time.
pub open spec fn ts_le_model(a: RecordModel, b: RecordModel) -> bool {
    a.ts_secs < b.ts_secs || (a.ts_secs == b.ts_secs && a.ts_nanos <= b.ts_nanos)
}

/// `a` is strictly before `b` in time.
pub open spec fn ts_lt_model(a: RecordModel, b: RecordModel) -> bool {
    a.ts_secs < b.ts_secs || (a.ts_secs == b.ts_secs && a.ts_nanos < b.ts_nanos)
}

/// `a` and `b` denote the same instant.
pub open spec fn ts_eq_model(a: RecordModel, b: RecordModel) -> bool {
    a.ts_secs == b.ts_secs && a.ts_nanos == b.ts_nanos
}

/// Most recent first.
pub open spec fn sorted_desc(s: Seq<RecordModel>) -> bool {
    forall|i: int, j: int| 0 <= i < j < s.len() ==> ts_le_model(s[j], s[i])
}

/// `dst` is `src` reordered by the index map `f`, and records that denote
/// the same instant keep their relative order (a stable permutation).
pub open spec fn stable_desc_perm(src: Seq<RecordModel>, dst: Seq<RecordModel>, f: Seq<int>) -> bool {
    &&& f.len() == dst.len()
    &&& dst.len() == src.len()
    &&& forall|i: int| 0 <= i < f.len() ==> 0 <= #[trigger] f[i] < src.len() && dst[i] == src[f[i]]
    &&& forall|i: int, j: int| 0 <= i < j < f.len() ==> f[i] != f[j]
    &&& forall|i: int, j: int|
        0 <= i < j < dst.len() && ts_eq_model(dst[i], dst[j]) ==> f[i] < f[j]
}

/// Strictly-before on timestamps.
fn ts_lt(a: &Timestamp, b: &Timestamp) -> (r: bool)
    ensures
        r == (a.secs < b.secs || (a.secs == b.secs && a.nanos < b.nanos)),
{
    if a.secs < b.secs {
        true
    } else if a.secs == b.secs {
        a.nanos < b.nanos
    } else {
        false
    }
}

/// Where `e` belongs in the descending list `out`: after every entry at
/// or after `e` in time, before the first entry strictly before it.
fn insertion_point(out: &Vec<InstallEntry>, e: &InstallEntry) -> (j: usize)
    ensures
        j <= out@.len(),
        forall|k: int| 0 <= k < j ==> ts_le_model(e@, models(out@)[k]),
        j < out@.len() ==> ts_lt_model(models(out@)[j as int], e@),
{
    let mut j: usize = 0;
    while j < out.len()
        invariant
            j <= out@.len(),
            forall|k: int| 0 <= k < j ==> ts_le_model(e@, models(out@)[k]),
        decreases out@.len() - j,
    {
        proof {
            assert(models(out@)[j as int] == out@[j as int]@);
        }
        if ts_lt(&out[j].timestamp, &e.timestamp) {
            return j;
        }
        j += 1;
    }
    j
}

/// Sort entries most-recent-first; entries that denote the same instant
/// keep their relative order.
pub fn sort_entries_desc(v: Vec<InstallEntry>) -> (r: Vec<InstallEntry>)
    ensures
        sorted_desc(models(r@)),
        exists|f: Seq<int>| stable_desc_perm(models(v@), models(r@), f),
{
    let ghost orig = v@;
    let mut v = v;
    let mut out: Vec<InstallEntry> = Vec::new();
    let ghost mut f: Seq<int> = Seq::empty();
    let mut idx: usize = 0;
    proof {
        vstd::std_specs::vec::axiom_spec_len(&v);
        assert(models(orig.subrange(0, 0)) =~= Seq::<RecordModel>::empty());
        assert(models(out@) =~= Seq::<RecordModel>::empty());
    }
    while v.len() > 0
        invariant
            orig.len() <= usize::MAX,
            idx + v@.len() == orig.len(),
            v@ == orig.subrange(idx as int, orig.len() as int),
            out@.len() == idx,
            sorted_desc(models(out@)),
            stable_desc_perm(models(orig.subrange(0, idx as int)), models(out@), f),
        decreases v@.len(),
    {
        let ghost old_v = v@;
        let e = v.remove(0);
        proof {
            assert(e == orig[idx as int]);
            assert(v@ =~= orig.subrange(idx + 1, orig.len() as int));
        }
        let j = insertion_point(&out, &e);
        let ghost old_out = out@;
        let ghost old_f = f;
        out.insert(j, e);
        proof {
            f = old_f.subrange(0, j as int) + seq![idx as int] + old_f.subrange(
                j as int,
                old_f.len() as int,
            );
            let om = models(old_out);
            let nm = models(out@);
            assert(out@ == old_out.insert(j as int, e));
            assert forall|k: int| 0 <= k < nm.len() implies #[trigger] nm[k] == (if k < j {
                om[k]
            } else if k == j {
                e@
            } else {
                om[k - 1]
            }) by {
                assert(nm[k] == out@[k]@);
                if k < j {
                    assert(out@[k] == old_out[k]);
                } else if k == j {
                    assert(out@[k] == e);
                } else {
                    assert(out@[k] == old_out[k - 1]);
                }
            }
            let src_old = models(orig.subrange(0, idx as int));
            let src_new = models(orig.subrange(0, idx + 1));
            assert(orig.subrange(0, idx + 1).drop_last() =~= orig.subrange(0, idx as int));
            assert forall|k: int| 0 <= k < src_new.len() implies #[trigger] src_new[k] == (if k
                < idx {
                src_old[k]
            } else {
                e@
            }) by {
                assert(src_new[k] == orig.subrange(0, idx + 1)[k]@);
            }
            // Sortedness of the extended list.
            assert forall|k1: int, k2: int| 0 <= k1 < k2 < nm.len() implies ts_le_model(
                nm[k2],
                nm[k1],
            ) by {
                if k1 == j && k2 > j {
                    assert(ts_le_model(om[k2 - 1], om[j as int]) || k2 - 1 == j);
                }
                if k1 < j && k2 == j {
                    assert(ts_le_model(e@, om[k1]));
                }
            }
            // The extended map is a stable permutation.
            assert forall|k: int| 0 <= k < f.len() implies 0 <= #[trigger] f[k] < src_new.len()
                && nm[k] == src_new[f[k]] by {
                if k < j {
                    assert(f[k] == old_f[k]);
                } else if k == j {
                    assert(f[k] == idx as int);
                } else {
                    assert(f[k] == old_f[k - 1]);
                }
            }
            assert forall|k1: int, k2: int| 0 <= k1 < k2 < f.len() implies f[k1] != f[k2] by {
                if k1 < j {
                    assert(f[k1] == old_f[k1]);
                }
                if k2 > j {
                    assert(f[k2] == old_f[k2 - 1]);
                }
            }
            assert forall|k1: int, k2: int|
                0 <= k1 < k2 < nm.len() && ts_eq_model(nm[k1], nm[k2]) implies f[k1] < f[k2] by {
                if k1 == j && k2 > j {
                    assert(ts_le_model(om[k2 - 1], om[j as int]) || k2 - 1 == j);
                    assert(ts_lt_model(om[j as int], e@));
                }
                if k1 < j {
                    assert(f[k1] == old_f[k1]);
                    assert(old_f[k1] < idx as int);
                }
                if k2 > j {
                    assert(f[k2] == old_f[k2 - 1]);
                }
            }
            assert(stable_desc_perm(src_new, nm, f));
        }
        idx += 1;
    }
    proof {
        assert(orig.subrange(0, idx as int) =~= orig);
    }
    out
}

/// Parse the install log text into entries, most recent first. Lines with
/// fewer than three fields or an unparsable timestamp are skipped; sizes
/// are left unresolved for the caller to fill from the live filesystem.
pub fn parse_log(contents: &str) -> (r: Vec<InstallEntry>)
    ensures
        sorted_desc(models(r@)),
        exists|f: Seq<int>|
            stable_desc_perm(parse_lines(split_lines(contents@)), models(r@), f),
{
    let lines = split_lines_str(contents);
    let ghost lviews = split_lines(contents@);
    let mut entries: Vec<InstallEntry> = Vec::new();
    let mut i: usize = 0;
    proof {
        assert(lviews.subrange(0, 0) =~= Seq::<Seq<char>>::empty());
        assert(models(entries@) =~= parse_lines(lviews.subrange(0, 0)));
    }
    while i < lines.len()
        invariant
            i <= lines@.len(),
            lines@.map_values(|t: String| t@) == lviews,
            lviews == split_lines(contents@),
            models(entries@) == parse_lines(lviews.subrange(0, i as int)),
        decreases lines@.len() - i,
    {
        proof {
            assert(lines@.map_values(|t: String| t@)[i as int] == lines@[i as int]@);
        }
        let parts = split_str(lines[i].as_str(), '\t');
        let ghost pviews = split_on(lviews[i as int], '\t');
        let ghost pre = parse_lines(lviews.subrange(0, i as int));
        let ghost cur = parse_lines(lviews.subrange(0, i + 1));
        proof {
            assert(parts@.map_values(|t: String| t@) == pviews);
            assert(parts@.len() == pviews.len());
            assert(lviews.subrange(0, i + 1).drop_last() =~= lviews.subrange(0, i as int));
            assert(lviews.subrange(0, i + 1).last() == lviews[i as int]);
        }
        if parts.len() >= 3 {
            proof {
                assert(parts@.map_values(|t: String| t@)[0] == parts@[0]@);
                assert(parts@.map_values(|t: String| t@)[1] == parts@[1]@);
                assert(parts@.map_values(|t: String| t@)[2] == parts@[2]@);
            }
            let ts_opt = parse_rfc3339(parts[0].as_str());
            match ts_opt {
                Some(ts) => {
                    let is_removed: bool = if parts.len() >= 4 {
                        proof {
                            assert(parts@.map_values(|t: String| t@)[3] == parts@[3]@);
                            reveal_strlit("removed");
                            assert("removed"@ =~= removed_marker());
                        }
                        str_eq(parts[3].as_str(), "removed")
                    } else {
                        false
                    };
                    let e = InstallEntry {
                        timestamp: ts,
                        repo: parts[1].clone(),
                        path: parts[2].clone(),
                        removed: is_removed,
                        size: None,
                    };
                    let ghost old_entries = entries@;
                    entries.push(e);
                    proof {
                        assert(e@ == parse_line(lviews[i as int])->Some_0);
                        assert(cur == pre.push(e@));
                        assert(models(entries@) =~= models(old_entries).push(e@));
                    }
                }
                None => {
                    proof {
                        assert(parse_line(lviews[i as int]) is None);
                        assert(cur == pre);
                    }
                },
            }
        } else {
            proof {
                assert(parse_line(lviews[i as int]) is None);
                assert(cur == pre);
            }
        }
        i += 1;
    }
    proof {
        assert(lviews.subrange(0, lines@.len() as int) =~= lviews);
    }
    sort_entries_desc(entries)
}

/// Rewriting a line twice is the same as rewriting it once.
proof fn lemma_marked_line_idempotent(l: Seq<char>, p: Seq<char>)
    ensures
        marked_line(marked_line(l, p), p) == marked_line(l, p),
{
    let parts = split_on(l, '\t');
    if parts.len() == 3 && parts[2] == p {
        let l2 = l + seq!['\t'] + removed_marker();
        assert(forall|k: int|
            0 <= k < removed_marker().len() ==> removed_marker()[k] != '\t');
        lemma_split_on_append(l, removed_marker(), '\t');
        assert(split_on(l2, '\t').len() == 4);
    }
}

/// Marking never makes a line empty, never empties a non-empty line,
/// and adds no newline to a newline-free line.
proof fn lemma_marked_line_shape(l: Seq<char>, p: Seq<char>)
    ensures
        marked_line(l, p).len() == 0 <==> l.len() == 0,
        (forall|k: int| 0 <= k < l.len() ==> l[k] != '\n') ==> (forall|k: int|
            0 <= k < marked_line(l, p).len() ==> marked_line(l, p)[k] != '\n'),
{
    let parts = split_on(l, '\t');
    if parts.len() == 3 && parts[2] == p {
        let m = l + seq!['\t'] + removed_marker();
        assert(marked_line(l, p) == m);
        assert(m.len() == l.len() + 8);
        if forall|k: int| 0 <= k < l.len() ==> l[k] != '\n' {
            assert(forall|k: int| 0 <= k < m.len() ==> m[k] != '\n') by {
                assert(forall|k: int| 0 <= k < l.len() ==> m[k] == l[k]);
                assert(m[l.len() as int] == '\t');
                assert(forall|k: int|
                    l.len() + 1 <= k < m.len() ==> m[k] == removed_marker()[k - l.len() - 1]);
            }
        }
    }
}

/// Mark-removed is idempotent: rewriting the log text twice for the same
/// path yields the same text as rewriting it once. The one shape of text
/// this does not cover is a log whose last line is empty (a text ending
/// in two newlines): there the first rewrite already drops that final
/// empty line, exactly as a rewrite of the unmarked text would.
pub proof fn lemma_mark_removed_idempotent(c: Seq<char>, p: Seq<char>)
    requires
        split_lines(c).len() >= 2 ==> split_lines(c).last() != Seq::<char>::empty(),
    ensures
        mark_removed_log(mark_removed_log(c, p), p) == mark_removed_log(c, p),
{
    let ls = split_lines(c);
    let m = marked_lines(ls, p);
    let out = join_with(m, '\n');
    assert(mark_removed_log(c, p) == out);
    if ls.len() == 0 {
        assert(m =~= Seq::<Seq<char>>::empty());
        assert(out =~= Seq::<char>::empty());
        assert(split_lines(out) =~= Seq::<Seq<char>>::empty());
        assert(marked_lines(split_lines(out), p) =~= Seq::<Seq<char>>::empty());
        assert(mark_removed_log(out, p) == out);
    } else if ls.len() == 1 && m[0].len() == 0 {
        assert(m.len() == 1);
        assert(out == m[0]);
        assert(out.len() == 0);
        assert(split_lines(out) =~= Seq::<Seq<char>>::empty());
        assert(marked_lines(split_lines(out), p) =~= Seq::<Seq<char>>::empty());
        assert(mark_removed_log(out, p) =~= out);
    } else {
        // The last rewritten line is non-empty.
        assert(m.len() == ls.len());
        assert(m.last() == marked_line(ls.last(), p));
        lemma_marked_line_shape(ls.last(), p);
        if ls.len() >= 2 {
            assert(ls.last().len() > 0) by {
                if ls.last().len() == 0 {
                    assert(ls.last() =~= Seq::<char>::empty());
                }
            }
        }
        assert(m.last().len() > 0);
        // Every rewritten line is newline-free.
        lemma_split_on_sep_free(c, '\n');
        assert(forall|i: int, k: int|
            0 <= i < ls.len() && 0 <= k < ls[i].len() ==> ls[i][k] != '\n') by {
            if c.len() > 0 && c.last() == '\n' {
                assert(forall|i: int| 0 <= i < ls.len() ==> ls[i] == split_on(c, '\n')[i]);
            }
        }
        assert forall|i: int, k: int|
            0 <= i < m.len() && 0 <= k < m[i].len() implies #[trigger] m[i][k] != '\n' by {
            assert(m[i] == marked_line(ls[i], p));
            lemma_marked_line_shape(ls[i], p);
        }
        lemma_join_last_char(m, '\n');
        assert(out.len() > 0);
        assert(m.last()[m.last().len() - 1] != '\n');
        assert(out.last() != '\n');
        assert(split_lines(out) == split_on(out, '\n'));
        lemma_split_on_join(m, '\n');
        assert(split_on(out, '\n') == m);
        assert(marked_lines(m, p) =~= m) by {
            assert forall|i: int| 0 <= i < m.len() implies marked_lines(m, p)[i] == m[i] by {
                assert(marked_lines(m, p)[i] == marked_line(m[i], p));
                assert(m[i] == marked_line(ls[i], p));
                lemma_marked_line_idempotent(ls[i], p);
            }
        }
        assert(mark_removed_log(out, p) == out);
    }
}

} // verus!
