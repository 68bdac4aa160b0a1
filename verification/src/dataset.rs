//! Feature dataset loader.
//!
//! The text format: one point per non-blank line, `<x> <y> <group-label>`,
//! fields separated by ASCII whitespace; a line whose first non-blank byte is
//! `#` is a comment. Numbers are plain decimals with `.` or `,` as the
//! decimal separator and are read into fixed-point thousandths (further
//! fractional digits are truncated). A line with fewer or more than three
//! fields, or an unreadable number, aborts the load with a line-numbered
//! error; no partial dataset is ever accepted.
//!
//! The result maps each group label, in order of first appearance, to the
//! ordered list of its two-component feature vectors.
//!
//! The number grammar is deliberately the plain decimal form above and no
//! more: no exponent or infinity forms, and magnitudes beyond the supported
//! feature range are rejected rather than rounded, so that every accepted
//! coordinate is exact in fixed point. Labels are kept as raw bytes.

use vstd::prelude::*;

use crate::consts::FEATURE_LIMIT;
use crate::similarity::FeatureVec;
use crate::similarity::feature_bounded;

verus! {

/// Typed errors of dataset loading, each carrying the 1-based number of the
/// offending line.
#[derive(Debug, Clone, Copy, PartialEq, Eq, Structural)]
pub enum DatasetError {
    /// Fewer than three fields on a data line.
    MissingArgument { line: usize },
    /// More than three fields on a data line.
    TooManyArguments { line: usize },
    /// A coordinate field that is not a supported decimal number.
    InvalidNumber { line: usize },
}

/// One group of the dataset: its label (raw bytes) and its points in file
/// order.
pub struct Group {
    pub label: Vec<u8>,
    pub points: Vec<FeatureVec>,
}

/// A parsed dataset: groups in order of first appearance.
pub struct Dataset {
    pub groups: Vec<Group>,
}

/// ASCII whitespace that separates fields.
pub open spec fn is_space(b: u8) -> bool {
    b == 32 || b == 9 || b == 10 || b == 11 || b == 12 || b == 13
}

/// ASCII decimal digit.
pub open spec fn is_digit(b: u8) -> bool {
    48 <= b <= 57
}

/// Splits a byte sequence at every newline: the complete lines seen so far
/// and the still-open final segment.
pub open spec fn spec_split_lines(s: Seq<u8>) -> (Seq<Seq<u8>>, Seq<u8>)
    decreases s.len(),
{
    if s.len() == 0 {
        (Seq::empty(), Seq::empty())
    } else {
        let r = spec_split_lines(s.drop_last());
        if s.last() == 10 {
            (r.0.push(r.1), Seq::empty())
        } else {
            (r.0, r.1.push(s.last()))
        }
    }
}

/// The lines of a buffer: newline-separated segments, without producing an
/// extra empty line for a trailing newline.
pub open spec fn spec_lines(s: Seq<u8>) -> Seq<Seq<u8>> {
    let r = spec_split_lines(s);
    if r.1.len() == 0 {
        r.0
    } else {
        r.0.push(r.1)
    }
}

/// Splits a line at runs of whitespace: the complete fields seen so far and
/// the still-open final field.
pub open spec fn spec_split_fields(s: Seq<u8>) -> (Seq<Seq<u8>>, Seq<u8>)
    decreases s.len(),
{
    if s.len() == 0 {
        (Seq::empty(), Seq::empty())
    } else {
        let r = spec_split_fields(s.drop_last());
        if is_space(s.last()) {
            if r.1.len() > 0 {
                (r.0.push(r.1), Seq::empty())
            } else {
                (r.0, Seq::empty())
            }
        } else {
            (r.0, r.1.push(s.last()))
        }
    }
}

/// The whitespace-separated fields of a line.
pub open spec fn spec_fields(s: Seq<u8>) -> Seq<Seq<u8>> {
    let r = spec_split_fields(s);
    if r.1.len() == 0 {
        r.0
    } else {
        r.0.push(r.1)
    }
}

/// Scans a number body left to right: digits accumulate into the integer
/// part `acc` (rejected beyond one million wholes); one decimal separator
/// switches to the fractional digits; anything else is unreadable. Returns
/// the integer part, the fractional digit bytes, and the total digit count.
pub open spec fn spec_scan(s: Seq<u8>, acc: int, ndigits: int) -> Option<(int, Seq<u8>, int)>
    decreases s.len(),
{
    if s.len() == 0 {
        Some((acc, Seq::empty(), ndigits))
    } else if is_digit(s[0]) {
        let acc2 = acc * 10 + (s[0] - 48);
        if acc2 > 1_000_000 {
            None
        } else {
            spec_scan(s.skip(1), acc2, ndigits + 1)
        }
    } else if s[0] == 46 || s[0] == 44 {
        if forall|k: int| 0 <= k < s.skip(1).len() ==> is_digit(#[trigger] s.skip(1)[k]) {
            Some((acc, s.skip(1), ndigits + s.len() - 1))
        } else {
            None
        }
    } else {
        None
    }
}

/// Value of the first three fractional digit bytes, zero-padded, in
/// thousandths.
pub open spec fn spec_frac_val(s: Seq<u8>) -> int {
    if s.len() == 0 {
        0
    } else if s.len() == 1 {
        (s[0] - 48) * 100
    } else if s.len() == 2 {
        (s[0] - 48) * 100 + (s[1] - 48) * 10
    } else {
        (s[0] - 48) * 100 + (s[1] - 48) * 10 + (s[2] - 48)
    }
}

/// Parses a decimal field into fixed-point thousandths: an optional sign,
/// digits, optionally one `.` or `,` followed by fractional digits (at least
/// one digit in all), truncated past the third fractional digit, and bounded
/// by the supported feature magnitude.
pub open spec fn spec_parse_fixed(s: Seq<u8>) -> Option<i64> {
    if s.len() == 0 {
        None
    } else {
        let neg = s[0] == 45;
        let body = if s[0] == 45 || s[0] == 43 {
            s.skip(1)
        } else {
            s
        };
        match spec_scan(body, 0, 0) {
            None => None,
            Some((ip, frac, nd)) => {
                if nd == 0 {
                    None
                } else {
                    let v = ip * 1000 + spec_frac_val(frac);
                    if v > FEATURE_LIMIT {
                        None
                    } else if neg {
                        Some((-v) as i64)
                    } else {
                        Some(v as i64)
                    }
                }
            },
        }
    }
}

/// The index of the group labelled `l`, or `-1` if there is none yet.
pub open spec fn spec_find_group(gv: Seq<(Seq<u8>, Seq<FeatureVec>)>, l: Seq<u8>) -> int
    decreases gv.len(),
{
    if gv.len() == 0 {
        -1
    } else if gv[0].0 == l {
        0
    } else {
        let r = spec_find_group(gv.skip(1), l);
        if r == -1 {
            -1
        } else {
            r + 1
        }
    }
}

/// `spec_find_group` finds exactly the first group with the label, or
/// reports that none exists.
pub proof fn lemma_find_group(gv: Seq<(Seq<u8>, Seq<FeatureVec>)>, l: Seq<u8>)
    ensures
        spec_find_group(gv, l) == -1 ==> (forall|j: int| 0 <= j < gv.len() ==> (#[trigger] gv[j]).0
            != l),
        spec_find_group(gv, l) != -1 ==> 0 <= spec_find_group(gv, l) < gv.len() && gv[
            spec_find_group(gv, l)
        ].0 == l && (forall|j: int| 0 <= j < spec_find_group(gv, l) ==> (#[trigger] gv[j]).0 != l),
    decreases gv.len(),
{
    if gv.len() == 0 {
    } else if gv[0].0 == l {
        assert(spec_find_group(gv, l) == 0);
    } else {
        lemma_find_group(gv.skip(1), l);
        let r = spec_find_group(gv.skip(1), l);
        if r == -1 {
            assert(spec_find_group(gv, l) == -1);
            assert forall|j: int| 0 <= j < gv.len() implies (#[trigger] gv[j]).0 != l by {
                if j >= 1 {
                    assert(gv.skip(1)[j - 1] == gv[j]);
                    assert(gv.skip(1)[j - 1].0 != l);
                }
            }
        } else {
            assert(spec_find_group(gv, l) == r + 1);
            assert(gv.skip(1)[r] == gv[r + 1]);
            assert forall|j: int| 0 <= j < r + 1 implies (#[trigger] gv[j]).0 != l by {
                if j >= 1 {
                    assert(gv.skip(1)[j - 1] == gv[j]);
                    assert(gv.skip(1)[j - 1].0 != l);
                }
            }
        }
    }
}

/// Appends a point to its group: to the existing group with this label, or
/// to a fresh group at the end (first-appearance order).
pub open spec fn spec_add_point(
    gv: Seq<(Seq<u8>, Seq<FeatureVec>)>,
    l: Seq<u8>,
    p: FeatureVec,
) -> Seq<(Seq<u8>, Seq<FeatureVec>)> {
    let g = spec_find_group(gv, l);
    if g == -1 {
        gv.push((l, seq![p]))
    } else {
        gv.update(g, (gv[g].0, gv[g].1.push(p)))
    }
}

/// Processes one line against the groups built so far: blank and comment
/// lines change nothing; a data line must have exactly three readable
/// fields.
pub open spec fn spec_parse_line(
    gv: Seq<(Seq<u8>, Seq<FeatureVec>)>,
    line: Seq<u8>,
    lineno: usize,
) -> Result<Seq<(Seq<u8>, Seq<FeatureVec>)>, DatasetError> {
    let fs = spec_fields(line);
    if fs.len() == 0 {
        Ok(gv)
    } else if fs[0][0] == 35 {
        Ok(gv)
    } else if fs.len() < 3 {
        Err(DatasetError::MissingArgument { line: lineno })
    } else if fs.len() > 3 {
        Err(DatasetError::TooManyArguments { line: lineno })
    } else {
        match (spec_parse_fixed(fs[0]), spec_parse_fixed(fs[1])) {
            (Some(x), Some(y)) => Ok(spec_add_point(gv, fs[2], (FeatureVec { x, y }))),
            _ => Err(DatasetError::InvalidNumber { line: lineno }),
        }
    }
}

/// Processes the first `k` lines in order, stopping at the first error.
pub open spec fn spec_parse_upto(lines: Seq<Seq<u8>>, k: int) -> Result<
    Seq<(Seq<u8>, Seq<FeatureVec>)>,
    DatasetError,
>
    decreases k,
{
    if k <= 0 {
        Ok(Seq::empty())
    } else {
        match spec_parse_upto(lines, k - 1) {
            Err(e) => Err(e),
            Ok(gv) => spec_parse_line(gv, lines[k - 1], k as usize),
        }
    }
}

/// What parsing a whole buffer yields.
pub open spec fn spec_parse_dataset(buffer: Seq<u8>) -> Result<
    Seq<(Seq<u8>, Seq<FeatureVec>)>,
    DatasetError,
> {
    spec_parse_upto(spec_lines(buffer), spec_lines(buffer).len() as int)
}

/// The feature vectors of the groups `gv`, group by group, each group's
/// points in file order.
pub open spec fn spec_flat_points(gv: Seq<(Seq<u8>, Seq<FeatureVec>)>) -> Seq<FeatureVec>
    decreases gv.len(),
{
    if gv.len() == 0 {
        Seq::empty()
    } else {
        spec_flat_points(gv.drop_last()) + gv.last().1
    }
}

impl View for Dataset {
    type V = Seq<(Seq<u8>, Seq<FeatureVec>)>;

    closed spec fn view(&self) -> Seq<(Seq<u8>, Seq<FeatureVec>)> {
        self.groups@.map_values(|g: Group| (g.label@, g.points@))
    }
}

/// Exact byte-sequence comparison of two labels.
fn bytes_eq(a: &Vec<u8>, b: &Vec<u8>) -> (r: bool)
    ensures
        r == (a@ == b@),
{
    if a.len() != b.len() {
        return false;
    }
    let n = a.len();
    let mut k: usize = 0;
    while k < n
        invariant
            n == a@.len(),
            n == b@.len(),
            k <= n,
            forall|j: int| 0 <= j < k ==> a@[j] == b@[j],
        decreases n - k,
    {
        if a[k] != b[k] {
            return false;
        }
        k = k + 1;
    }
    proof {
        assert(a@ =~= b@);
    }
    true
}

/// Splits a buffer into its lines.
fn split_lines(buffer: &[u8]) -> (r: Vec<Vec<u8>>)
    ensures
        r@.len() == spec_lines(buffer@).len(),
        forall|i: int| 0 <= i < r@.len() ==> (#[trigger] r@[i])@ == spec_lines(buffer@)[i],
{
    let n = buffer.len();
    let mut lines: Vec<Vec<u8>> = Vec::new();
    let mut cur: Vec<u8> = Vec::new();
    let mut k: usize = 0;
    while k < n
        invariant
            n == buffer@.len(),
            k <= n,
            lines@.len() == spec_split_lines(buffer@.take(k as int)).0.len(),
            forall|i: int|
                0 <= i < lines@.len() ==> (#[trigger] lines@[i])@ == spec_split_lines(
                    buffer@.take(k as int),
                ).0[i],
            cur@ == spec_split_lines(buffer@.take(k as int)).1,
        decreases n - k,
    {
        proof {
            assert(buffer@.take(k as int + 1).drop_last() =~= buffer@.take(k as int));
            assert(buffer@.take(k as int + 1).last() == buffer@[k as int]);
        }
        let b = buffer[k];
        if b == 10 {
            lines.push(cur);
            cur = Vec::new();
        } else {
            cur.push(b);
        }
        k = k + 1;
    }
    proof {
        assert(buffer@.take(n as int) =~= buffer@);
    }
    if cur.len() > 0 {
        lines.push(cur);
    }
    lines
}

/// Splits a line into its whitespace-separated fields.
fn split_fields(line: &Vec<u8>) -> (r: Vec<Vec<u8>>)
    ensures
        r@.len() == spec_fields(line@).len(),
        forall|i: int| 0 <= i < r@.len() ==> (#[trigger] r@[i])@ == spec_fields(line@)[i],
{
    let n = line.len();
    let mut fields: Vec<Vec<u8>> = Vec::new();
    let mut cur: Vec<u8> = Vec::new();
    let mut k: usize = 0;
    while k < n
        invariant
            n == line@.len(),
            k <= n,
            fields@.len() == spec_split_fields(line@.take(k as int)).0.len(),
            forall|i: int|
                0 <= i < fields@.len() ==> (#[trigger] fields@[i])@ == spec_split_fields(
                    line@.take(k as int),
                ).0[i],
            cur@ == spec_split_fields(line@.take(k as int)).1,
        decreases n - k,
    {
        proof {
            assert(line@.take(k as int + 1).drop_last() =~= line@.take(k as int));
            assert(line@.take(k as int + 1).last() == line@[k as int]);
        }
        let b = line[k];
        if b == 32 || b == 9 || b == 10 || b == 11 || b == 12 || b == 13 {
            if cur.len() > 0 {
                fields.push(cur);
                cur = Vec::new();
            }
        } else {
            cur.push(b);
        }
        k = k + 1;
    }
    proof {
        assert(line@.take(n as int) =~= line@);
    }
    if cur.len() > 0 {
        fields.push(cur);
    }
    fields
}

/// Parses one decimal field into fixed-point thousandths.
#[verifier::loop_isolation(false)]
#[verifier::rlimit(60)]
fn parse_fixed(s: &Vec<u8>) -> (r: Option<i64>)
    ensures
        r == spec_parse_fixed(s@),
        r matches Some(v) ==> -FEATURE_LIMIT <= v <= FEATURE_LIMIT,
{
    let n = s.len();
    if n == 0 {
        return None;
    }
    let first = s[0];
    let neg = first == 45;
    let start: usize = if first == 45 || first == 43 {
        1
    } else {
        0
    };
    let ghost body = if first == 45 || first == 43 {
        s@.skip(1)
    } else {
        s@
    };
    proof {
        assert(body == s@.skip(start as int));
    }
    let mut acc: i64 = 0;
    let mut ndigits: u64 = 0;
    let mut k: usize = start;
    // scan the integer part
    while k < n
        invariant
            n == s@.len(),
            start <= k <= n,
            body == s@.skip(start as int),
            0 <= acc <= 1_000_000,
            spec_scan(body, 0, 0) == spec_scan(s@.skip(k as int), acc as int, ndigits as int),
            ndigits <= k,
        decreases n - k,
    {
        let b = s[k];
        proof {
            assert(s@.skip(k as int)[0] == s@[k as int]);
            assert(s@.skip(k as int).skip(1) =~= s@.skip(k as int + 1));
        }
        if 48 <= b && b <= 57 {
            let acc2 = acc * 10 + (b - 48) as i64;
            if acc2 > 1_000_000 {
                return None;
            }
            acc = acc2;
            ndigits = ndigits + 1;
        } else if b == 46 || b == 44 {
            // decimal separator: the rest must be digits
            let frac_start = k + 1;
            let mut j: usize = frac_start;
            while j < n
                invariant
                    n == s@.len(),
                    frac_start <= j <= n,
                    forall|jj: int| frac_start <= jj < j ==> is_digit(#[trigger] s@[jj]),
                decreases n - j,
            {
                let d = s[j];
                if d < 48 || d > 57 {
                    proof {
                        assert(s@.skip(k as int).skip(1)[j - k - 1] == s@[j as int]);
                        assert(!(forall|kk: int|
                            0 <= kk < s@.skip(k as int).skip(1).len() ==> is_digit(
                                #[trigger] s@.skip(k as int).skip(1)[kk],
                            )));
                    }
                    return None;
                }
                j = j + 1;
            }
            proof {
                assert forall|kk: int|
                    0 <= kk < s@.skip(k as int).skip(1).len() implies is_digit(
                    #[trigger] s@.skip(k as int).skip(1)[kk],
                ) by {
                    assert(s@.skip(k as int).skip(1)[kk] == s@[kk + k + 1]);
                }
            }
            // take up to three fractional digits, zero-padded
            let frac_len = n - frac_start;
            let mut frac: i64 = 0;
            if frac_len >= 1 {
                frac = ((s[frac_start] - 48) as i64) * 100;
            }
            if frac_len >= 2 {
                frac = frac + ((s[frac_start + 1] - 48) as i64) * 10;
            }
            if frac_len >= 3 {
                frac = frac + (s[frac_start + 2] - 48) as i64;
            }
            proof {
                let fr = s@.skip(k as int + 1);
                assert(fr.len() == frac_len);
                if frac_len >= 1 {
                    assert(fr[0] == s@[frac_start as int]);
                }
                if frac_len >= 2 {
                    assert(fr[1] == s@[frac_start as int + 1]);
                }
                if frac_len >= 3 {
                    assert(fr[2] == s@[frac_start as int + 2]);
                }
                assert(frac == spec_frac_val(fr));
            }
            let total_digits = ndigits + (frac_len as u64);
            if total_digits == 0 {
                return None;
            }
            let v = acc * 1000 + frac;
            if v > FEATURE_LIMIT {
                return None;
            }
            if neg {
                return Some(-v);
            } else {
                return Some(v);
            }
        } else {
            return None;
        }
        k = k + 1;
    }
    proof {
        assert(s@.skip(n as int) =~= Seq::<u8>::empty());
    }
    if ndigits == 0 {
        return None;
    }
    let v = acc * 1000;
    if v > FEATURE_LIMIT {
        return None;
    }
    if neg {
        Some(-v)
    } else {
        Some(v)
    }
}

/// Complete fields are never empty: a run of whitespace produces no field.
proof fn lemma_fields_nonempty(s: Seq<u8>)
    ensures
        forall|i: int|
            0 <= i < spec_split_fields(s).0.len() ==> (#[trigger] spec_split_fields(s).0[i]).len()
                > 0,
    decreases s.len(),
{
    if s.len() > 0 {
        lemma_fields_nonempty(s.drop_last());
        let r = spec_split_fields(s.drop_last());
        assert forall|i: int|
            0 <= i < spec_split_fields(s).0.len() implies (#[trigger] spec_split_fields(
            s,
        ).0[i]).len() > 0 by {
            if is_space(s.last()) && r.1.len() > 0 {
                if i < r.0.len() {
                    assert(spec_split_fields(s).0[i] == r.0[i]);
                } else {
                    assert(spec_split_fields(s).0[i] == r.1);
                }
            } else {
                assert(spec_split_fields(s).0 == r.0);
            }
        }
    }
}

/// Once a line has failed, processing any further lines reports the same
/// error: no partial dataset is accepted.
proof fn lemma_error_persists(lines: Seq<Seq<u8>>, k: int, j: int)
    requires
        0 <= k <= j,
        spec_parse_upto(lines, k) is Err,
    ensures
        spec_parse_upto(lines, j) == spec_parse_upto(lines, k),
    decreases j - k,
{
    if j > k {
        lemma_error_persists(lines, k, j - 1);
    }
}

/// Finds the first group with this label, if any.
fn find_group(groups: &Vec<Group>, label: &Vec<u8>) -> (r: Option<usize>)
    ensures
        r matches Some(g) ==> g < groups@.len() && groups@[g as int].label@ == label@ && (forall|
            j: int,
        |
            0 <= j < g ==> (#[trigger] groups@[j]).label@ != label@),
        r is None ==> forall|j: int|
            0 <= j < groups@.len() ==> (#[trigger] groups@[j]).label@ != label@,
{
    let ng = groups.len();
    let mut g: usize = 0;
    while g < ng
        invariant
            ng == groups@.len(),
            g <= ng,
            forall|j: int| 0 <= j < g ==> (#[trigger] groups@[j]).label@ != label@,
        decreases ng - g,
    {
        if bytes_eq(&groups[g].label, label) {
            return Some(g);
        }
        g = g + 1;
    }
    None
}

/// Every flattened point is a point of one of the groups.
proof fn lemma_flat_points_bounded(gv: Seq<(Seq<u8>, Seq<FeatureVec>)>, i: int)
    requires
        0 <= i < spec_flat_points(gv).len(),
    ensures
        exists|g: int, p: int|
            0 <= g < gv.len() && 0 <= p < gv[g].1.len() && spec_flat_points(gv)[i] == (
            #[trigger] gv[g].1[p]),
    decreases gv.len(),
{
    let done = spec_flat_points(gv.drop_last());
    if i < done.len() {
        lemma_flat_points_bounded(gv.drop_last(), i);
        let (g, p): (int, int) = choose|g: int, p: int|
            0 <= g < gv.drop_last().len() && 0 <= p < gv.drop_last()[g].1.len() && done[i] == (
            #[trigger] gv.drop_last()[g].1[p]);
        assert(gv[g] == gv.drop_last()[g]);
        assert(0 <= g < gv.len() && 0 <= p < gv[g].1.len() && spec_flat_points(gv)[i] == gv[
        g].1[p]);
    } else {
        let g = gv.len() - 1;
        let p = i - done.len();
        assert(0 <= g < gv.len() && 0 <= p < gv[g].1.len() && spec_flat_points(gv)[i] == gv[
        g].1[p]);
    }
}

impl Dataset {
    /// Every point of every group is within the supported feature magnitude.
    pub open spec fn wf(&self) -> bool {
        forall|g: int, p: int|
            0 <= g < self@.len() && 0 <= p < self@[g].1.len() ==> feature_bounded(
                #[trigger] self@[g].1[p],
            )
    }

    /// All feature vectors of the dataset, group by group, each group's
    /// points in file order: the item population a simulation is built from.
    #[verifier::loop_isolation(false)]
    pub fn feature_vectors(&self) -> (r: Vec<Option<FeatureVec>>)
        ensures
            r@.len() == spec_flat_points(self@).len(),
            forall|i: int|
                0 <= i < r@.len() ==> (#[trigger] r@[i]) == Some(spec_flat_points(self@)[i]),
            self.wf() ==> forall|i: int|
                0 <= i < r@.len() ==> ((#[trigger] r@[i]) matches Some(f) ==> feature_bounded(f)),
    {
        let mut r: Vec<Option<FeatureVec>> = Vec::new();
        let ng = self.groups.len();
        proof {
            assert(ng == self@.len());
        }
        let mut g: usize = 0;
        while g < ng
            invariant
                g <= ng,
                r@.len() == spec_flat_points(self@.take(g as int)).len(),
                forall|i: int|
                    0 <= i < r@.len() ==> (#[trigger] r@[i]) == Some(
                        spec_flat_points(self@.take(g as int))[i],
                    ),
            decreases ng - g,
        {
            let ghost done = spec_flat_points(self@.take(g as int));
            proof {
                assert(self@.take(g as int + 1).drop_last() =~= self@.take(g as int));
                assert(self@.take(g as int + 1).last() == self@[g as int]);
                assert(self@[g as int] == (self.groups@[g as int].label@, self.groups@[
                g as int].points@));
            }
            let np = self.groups[g].points.len();
            let mut p: usize = 0;
            while p < np
                invariant
                    g < ng,
                    np == self.groups@[g as int].points@.len(),
                    p <= np,
                    r@.len() == done.len() + p,
                    forall|i: int|
                        0 <= i < done.len() ==> (#[trigger] r@[i]) == Some(done[i]),
                    forall|j: int|
                        0 <= j < p ==> (#[trigger] r@[done.len() + j]) == Some(
                            self.groups@[g as int].points@[j],
                        ),
                decreases np - p,
            {
                let f = self.groups[g].points[p];
                r.push(Some(f));
                p = p + 1;
            }
            proof {
                let next = spec_flat_points(self@.take(g as int + 1));
                assert(self@.take(g as int + 1).drop_last() =~= self@.take(g as int));
                assert(self@.take(g as int + 1).last() == self@[g as int]);
                assert(next =~= done + self@[g as int].1);
                assert forall|i: int| 0 <= i < r@.len() implies (#[trigger] r@[i]) == Some(
                    next[i],
                ) by {
                    if i < done.len() {
                        assert(next[i] == done[i]);
                    } else {
                        let j = i - done.len();
                        assert(r@[done.len() + j] == Some(self.groups@[g as int].points@[j]));
                        assert(next[i] == self@[g as int].1[j]);
                    }
                }
            }
            g = g + 1;
        }
        proof {
            assert(self@.take(ng as int) =~= self@);
            if self.wf() {
                assert forall|i: int|
                    0 <= i < r@.len() implies ((#[trigger] r@[i]) matches Some(f)
                    ==> feature_bounded(f)) by {
                    lemma_flat_points_bounded(self@, i);
                }
            }
        }
        r
    }

    /// Parses a whole buffer. Either every line parses and the result maps
    /// each group label, in first-appearance order, to its points in file
    /// order — or the first offending line's error is returned and no
    /// partial dataset is accepted.
    #[verifier::loop_isolation(false)]
    pub fn from_buffer(buffer: &[u8]) -> (r: Result<Dataset, DatasetError>)
        ensures
            r matches Ok(d) ==> spec_parse_dataset(buffer@) == Result::<
                Seq<(Seq<u8>, Seq<FeatureVec>)>,
                DatasetError,
            >::Ok(d@) && d.wf(),
            r matches Err(e) ==> spec_parse_dataset(buffer@) == Result::<
                Seq<(Seq<u8>, Seq<FeatureVec>)>,
                DatasetError,
            >::Err(e),
    {
        let lines = split_lines(buffer);
        let ghost lseq = spec_lines(buffer@);
        let n = lines.len();
        let mut groups: Vec<Group> = Vec::new();
        proof {
            assert(groups@.map_values(|g: Group| (g.label@, g.points@)) =~= Seq::<
                (Seq<u8>, Seq<FeatureVec>),
            >::empty());
        }
        let mut k: usize = 0;
        while k < n
            invariant
                n == lseq.len(),
                lines@.len() == n,
                forall|i: int| 0 <= i < n ==> (#[trigger] lines@[i])@ == lseq[i],
                k <= n,
                n <= usize::MAX,
                spec_parse_upto(lseq, k as int) == Result::<
                    Seq<(Seq<u8>, Seq<FeatureVec>)>,
                    DatasetError,
                >::Ok(groups@.map_values(|g: Group| (g.label@, g.points@))),
                forall|g: int, p: int|
                    0 <= g < groups@.len() && 0 <= p < (#[trigger] groups@[g]).points@.len()
                        ==> feature_bounded(#[trigger] groups@[g].points@[p]),
            decreases n - k,
        {
            let ghost gv = groups@.map_values(|g: Group| (g.label@, g.points@));
            let line = &lines[k];
            let fields = split_fields(line);
            let lineno = k + 1;
            proof {
                lemma_fields_nonempty(line@);
            }
            if fields.len() == 0 {
                // blank line
            } else if fields[0][0] == 35 {
                // comment line
                proof {
                    assert(spec_fields(line@)[0][0] == 35);
                }
            } else if fields.len() < 3 {
                proof {
                    assert(spec_parse_upto(lseq, k as int + 1) == Result::<
                        Seq<(Seq<u8>, Seq<FeatureVec>)>,
                        DatasetError,
                    >::Err(DatasetError::MissingArgument { line: lineno }));
                    lemma_error_persists(lseq, k as int + 1, n as int);
                }
                return Err(DatasetError::MissingArgument { line: lineno });
            } else if fields.len() > 3 {
                proof {
                    assert(spec_parse_upto(lseq, k as int + 1) == Result::<
                        Seq<(Seq<u8>, Seq<FeatureVec>)>,
                        DatasetError,
                    >::Err(DatasetError::TooManyArguments { line: lineno }));
                    lemma_error_persists(lseq, k as int + 1, n as int);
                }
                return Err(DatasetError::TooManyArguments { line: lineno });
            } else {
                let x = parse_fixed(&fields[0]);
                let y = parse_fixed(&fields[1]);
                match (x, y) {
                    (Some(xv), Some(yv)) => {
                        let p = FeatureVec { x: xv, y: yv };
                        let label = &fields[2];
                        proof {
                            lemma_find_group(gv, label@);
                            assert forall|j: int| 0 <= j < gv.len() implies (#[trigger] gv[j]).0
                                == groups@[j].label@ by {}
                        }
                        match find_group(&groups, label) {
                            Some(g) => {
                                proof {
                                    assert(gv[g as int].0 == label@);
                                    assert(spec_find_group(gv, label@) == g as int);
                                }
                                groups[g].points.push(p);
                                proof {
                                    assert(groups@.map_values(
                                        |gr: Group| (gr.label@, gr.points@),
                                    ) =~= spec_add_point(gv, label@, p));
                                }
                            },
                            None => {
                                proof {
                                    assert(spec_find_group(gv, label@) == -1);
                                }
                                let mut pts: Vec<FeatureVec> = Vec::new();
                                pts.push(p);
                                let lab: Vec<u8> = label.clone();
                                proof {
                                    assert(lab@ == label@);
                                    assert(pts@ =~= seq![p]);
                                }
                                groups.push(Group { label: lab, points: pts });
                                proof {
                                    assert(groups@.map_values(
                                        |gr: Group| (gr.label@, gr.points@),
                                    ) =~= spec_add_point(gv, label@, p));
                                }
                            },
                        }
                    },
                    _ => {
                        proof {
                            assert(spec_parse_upto(lseq, k as int + 1) == Result::<
                                Seq<(Seq<u8>, Seq<FeatureVec>)>,
                                DatasetError,
                            >::Err(DatasetError::InvalidNumber { line: lineno }));
                            lemma_error_persists(lseq, k as int + 1, n as int);
                        }
                        return Err(DatasetError::InvalidNumber { line: lineno });
                    },
                }
            }
            k = k + 1;
        }
        Ok(Dataset { groups })
    }
}

/// Loader facade for dataset assets read from `.txt` sources: the host hands
/// the raw bytes in, the parsed dataset comes back.
pub struct DatasetAssetLoader;

impl DatasetAssetLoader {
    /// Parses one asset's bytes; exactly `Dataset::from_buffer`.
    pub fn load(&self, bytes: &[u8]) -> (r: Result<Dataset, DatasetError>)
        ensures
            r matches Ok(d) ==> spec_parse_dataset(bytes@) == Result::<
                Seq<(Seq<u8>, Seq<FeatureVec>)>,
                DatasetError,
            >::Ok(d@) && d.wf(),
            r matches Err(e) ==> spec_parse_dataset(bytes@) == Result::<
                Seq<(Seq<u8>, Seq<FeatureVec>)>,
                DatasetError,
            >::Err(e),
    {
        Dataset::from_buffer(bytes)
    }

    /// The file extension this loader accepts.
    pub fn extensions(&self) -> (r: &'static str) {
        "txt"
    }
}

} // verus!
