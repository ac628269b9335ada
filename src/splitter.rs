//! The splitpoint scan: walks down the strip one window at a time and picks
//! the row where each page ends.
use crate::splitpoint::{
    cut_rows, lemma_cut_rows_concat, lemma_cut_rows_one, lemma_cut_rows_single, Splitpoint,
};
use crate::strip::{roughness, Strip, StripView};
use vstd::prelude::*;

verus! {

/// Row of the `i`-th sample of the window that ends just above `cursor`;
/// samples go upwards, `step` rows apart.
pub open spec fn sample_row(cursor: int, step: int, i: int) -> int {
    cursor - 1 - i * step
}

/// Whether samples `i`, `i + 1` and `i + 2` all lie in a window `span` rows tall.
pub open spec fn has_triple(span: int, step: int, i: int) -> bool {
    (i + 2) * step < span
}

pub open spec fn max_u8(a: u8, b: u8) -> u8 {
    if a >= b {
        a
    } else {
        b
    }
}

/// The largest roughness among samples `i`, `i + 1` and `i + 2`.
pub open spec fn triple_max(rough: Seq<u8>, cursor: int, step: int, i: int) -> u8 {
    max_u8(
        rough[sample_row(cursor, step, i)],
        max_u8(rough[sample_row(cursor, step, i + 1)], rough[sample_row(cursor, step, i + 2)]),
    )
}

/// The first triple, from the `i`-th on, that is clean or no longer fits in the window.
pub open spec fn first_clean(
    rough: Seq<u8>,
    cursor: int,
    span: int,
    step: int,
    limit: int,
    i: nat,
) -> nat
    decreases span - i,
{
    if step <= 0 || !has_triple(span, step, i as int) || triple_max(rough, cursor, step, i as int)
        <= limit {
        i
    } else {
        proof {
            assert(i + 2 <= (i + 2) * step) by (nonlinear_arith)
                requires
                    step >= 1,
                    i >= 0,
            ;
        }
        first_clean(rough, cursor, span, step, limit, i + 1)
    }
}

/// The least rough of the first `i` triples, as its index and its roughness.
/// Before any triple it is sample 0 at 255; a later triple replaces the
/// current one only when it is strictly smoother.
pub open spec fn fallback(rough: Seq<u8>, cursor: int, step: int, i: nat) -> (nat, u8)
    decreases i,
{
    if i == 0 {
        (0, 255u8)
    } else {
        let prev = fallback(rough, cursor, step, (i - 1) as nat);
        let t = triple_max(rough, cursor, step, i - 1);
        if t < prev.1 {
            ((i - 1) as nat, t)
        } else {
            prev
        }
    }
}

/// The markers that one window appends, and the row where it cuts.
pub open spec fn window(rough: Seq<u8>, cursor: int, span: int, step: int, limit: int) -> (
    Seq<Splitpoint>,
    int,
) {
    let j = first_clean(rough, cursor, span, step, limit, 0);
    let skipped = Seq::new(j, |t: int| Splitpoint::Skipped(sample_row(cursor, step, t) as usize));
    if has_triple(span, step, j as int) {
        let c = sample_row(cursor, step, j as int);
        (skipped.push(Splitpoint::Cut(c as usize)), c)
    } else if j == 0 {
        let c = cursor - 1;
        (seq![Splitpoint::Cut(c as usize)], c)
    } else {
        let b = fallback(rough, cursor, step, j).0;
        let c = sample_row(cursor, step, b as int);
        (skipped.update(b as int, Splitpoint::Cut(c as usize)), c)
    }
}

/// Scan parameters under which every window moves the cursor down.
pub open spec fn scan_ok(max: int, min: int, step: int) -> bool {
    &&& 1 <= step
    &&& 0 <= min <= max
    &&& 1 <= max
}

/// The markers of all windows from `cursor` down to the end of the strip.
pub open spec fn scan(
    rough: Seq<u8>,
    cursor: int,
    max: int,
    min: int,
    step: int,
    limit: int,
) -> Seq<Splitpoint>
    decreases (if cursor > rough.len() {
        0
    } else {
        rough.len() + 1 - cursor
    }),
    when scan_ok(max, min, step) && cursor >= max + 1
{
    if cursor > rough.len() {
        Seq::empty()
    } else {
        let w = window(rough, cursor, max + 1 - min, step, limit);
        proof {
            lemma_window_cut(rough, cursor, max, min, step, limit);
        }
        w.0 + scan(rough, w.1 + max + 1, max, min, step, limit)
    }
}

/// The whole marker sequence for a strip whose rows have roughness `rough`.
pub open spec fn splitpoints_of(
    rough: Seq<u8>,
    max_height: int,
    min_height: int,
    scan_interval: int,
    sensitivity: u8,
) -> Seq<Splitpoint> {
    seq![Splitpoint::Cut(0)] + scan(
        rough,
        max_height + 1,
        max_height,
        min_height,
        scan_interval,
        255 - sensitivity,
    ) + seq![Splitpoint::Cut(rough.len() as usize)]
}

proof fn lemma_first_clean(rough: Seq<u8>, cursor: int, span: int, step: int, limit: int, i: nat)
    requires
        step >= 1,
    ensures
        i <= first_clean(rough, cursor, span, step, limit, i),
        forall|t: int|
            i <= t < first_clean(rough, cursor, span, step, limit, i) ==> has_triple(span, step, t)
                && triple_max(rough, cursor, step, t) > limit,
        has_triple(span, step, first_clean(rough, cursor, span, step, limit, i) as int)
            ==> triple_max(rough, cursor, step, first_clean(rough, cursor, span, step, limit, i) as int)
            <= limit,
    decreases span - i,
{
    if has_triple(span, step, i as int) && triple_max(rough, cursor, step, i as int) > limit {
        assert(i + 2 <= (i + 2) * step) by (nonlinear_arith)
            requires
                step >= 1,
                i >= 0,
        ;
        lemma_first_clean(rough, cursor, span, step, limit, i + 1);
    }
}

proof fn lemma_fallback_index(rough: Seq<u8>, cursor: int, step: int, i: nat)
    ensures
        i == 0 ==> fallback(rough, cursor, step, i).0 == 0,
        i > 0 ==> fallback(rough, cursor, step, i).0 < i,
    decreases i,
{
    if i > 0 {
        lemma_fallback_index(rough, cursor, step, (i - 1) as nat);
    }
}

/// A sample that starts a triple lies at least two steps inside the window.
proof fn lemma_triple_row(cursor: int, span: int, step: int, t: int)
    requires
        step >= 1,
        t >= 0,
        has_triple(span, step, t),
    ensures
        cursor - span + 2 * step <= sample_row(cursor, step, t) <= cursor - 1,
        cursor - span <= sample_row(cursor, step, t + 2),
{
    assert((t + 2) * step == t * step + 2 * step) by (nonlinear_arith);
    assert(t * step >= 0) by (nonlinear_arith)
        requires
            step >= 1,
            t >= 0,
    ;
}

/// Each window cuts exactly once, at least `min` and at most `max` rows below
/// the previous cut, and strictly below it.
pub proof fn lemma_window_cut(rough: Seq<u8>, cursor: int, max: int, min: int, step: int, limit: int)
    requires
        scan_ok(max, min, step),
        cursor >= max + 1,
    ensures
        ({
            let (e, c) = window(rough, cursor, max + 1 - min, step, limit);
            &&& cursor - (max + 1) + min <= c <= cursor - 1
            &&& cursor - max <= c
            &&& cut_rows(e) == seq![c as usize]
        }),
{
    let span = max + 1 - min;
    let j = first_clean(rough, cursor, span, step, limit, 0);
    lemma_first_clean(rough, cursor, span, step, limit, 0);
    let skipped = Seq::new(j, |t: int| Splitpoint::Skipped(sample_row(cursor, step, t) as usize));
    let (e, c) = window(rough, cursor, span, step, limit);
    if has_triple(span, step, j as int) {
        lemma_triple_row(cursor, span, step, j as int);
        lemma_cut_rows_single(e, j as int);
    } else if j == 0 {
        lemma_cut_rows_one(Splitpoint::Cut(c as usize));
    } else {
        let b = fallback(rough, cursor, step, j).0;
        lemma_fallback_index(rough, cursor, step, j);
        assert(has_triple(span, step, b as int));
        lemma_triple_row(cursor, span, step, b as int);
        lemma_cut_rows_single(e, b as int);
    }
}

/// The cut rows of a scan from `cursor` (the previous cut being
/// `cursor - max - 1`): each one lies between `min` and `max` rows below the
/// one before, and the last leaves fewer than `max + 1` rows to the end.
pub proof fn lemma_scan_cuts(rough: Seq<u8>, cursor: int, max: int, min: int, step: int, limit: int)
    requires
        scan_ok(max, min, step),
        cursor >= max + 1,
        rough.len() <= usize::MAX,
    ensures
        ({
            let cs = cut_rows(scan(rough, cursor, max, min, step, limit));
            let prev = cursor - (max + 1);
            &&& (cs.len() == 0 <==> cursor > rough.len())
            &&& cs.len() > 0 ==> prev + min <= cs[0] && prev < cs[0] <= prev + max
            &&& forall|i: int|
                0 <= i < cs.len() - 1 ==> #[trigger] cs[i] + min <= cs[i + 1] && cs[i] < cs[i + 1]
                    <= cs[i] + max
            &&& cs.len() > 0 ==> cs.last() < rough.len() && rough.len() <= cs.last() + max
        }),
    decreases (if cursor > rough.len() {
        0
    } else {
        rough.len() + 1 - cursor
    }),
{
    if cursor <= rough.len() {
        let (e, c) = window(rough, cursor, max + 1 - min, step, limit);
        lemma_window_cut(rough, cursor, max, min, step, limit);
        let next = c + max + 1;
        lemma_scan_cuts(rough, next, max, min, step, limit);
        let rest = scan(rough, next, max, min, step, limit);
        assert(scan(rough, cursor, max, min, step, limit) == e + rest);
        lemma_cut_rows_concat(e, rest);
        let cs = cut_rows(scan(rough, cursor, max, min, step, limit));
        let tail = cut_rows(rest);
        assert(cs == seq![c as usize] + tail);
        assert forall|i: int| 0 <= i < cs.len() - 1 implies #[trigger] cs[i] + min <= cs[i + 1] && cs[i]
            < cs[i + 1] <= cs[i] + max by {
            if i > 0 {
                assert(cs[i] == tail[i - 1]);
                assert(cs[i + 1] == tail[i]);
            } else {
                assert(cs[1] == tail[0]);
            }
        }
        if tail.len() > 0 {
            assert(cs.last() == tail.last());
        }
    }
}

/// The shape of every result of the scan: it opens with `Cut(0)` and closes
/// with `Cut(height)`; no page is taller than `max_height`; every page but the
/// last is at least `min_height` tall; and on a strip with rows, cut rows
/// strictly increase.
pub proof fn lemma_splitpoints_shape(
    rough: Seq<u8>,
    max_height: int,
    min_height: int,
    scan_interval: int,
    sensitivity: u8,
)
    requires
        scan_ok(max_height, min_height, scan_interval),
        rough.len() <= usize::MAX,
    ensures
        ({
            let sp = splitpoints_of(rough, max_height, min_height, scan_interval, sensitivity);
            let cs = cut_rows(sp);
            &&& sp[0] == Splitpoint::Cut(0)
            &&& sp.last() == Splitpoint::Cut(rough.len() as usize)
            &&& cs.len() >= 2
            &&& cs[0] == 0
            &&& cs.last() == rough.len()
            &&& forall|i: int|
                0 <= i < cs.len() - 1 ==> #[trigger] cs[i] <= cs[i + 1] <= cs[i] + max_height
            &&& forall|i: int| 0 <= i < cs.len() - 2 ==> #[trigger] cs[i] + min_height <= cs[i + 1]
            &&& rough.len() > 0 ==> forall|i: int|
                0 <= i < cs.len() - 1 ==> #[trigger] cs[i] < cs[i + 1]
        }),
{
    let limit = 255 - sensitivity;
    let mid = scan(rough, max_height + 1, max_height, min_height, scan_interval, limit);
    let first = seq![Splitpoint::Cut(0)];
    let last = seq![Splitpoint::Cut(rough.len() as usize)];
    let sp = splitpoints_of(rough, max_height, min_height, scan_interval, sensitivity);
    lemma_scan_cuts(rough, max_height + 1, max_height, min_height, scan_interval, limit);
    lemma_cut_rows_concat(first + mid, last);
    lemma_cut_rows_concat(first, mid);
    lemma_cut_rows_one(Splitpoint::Cut(0));
    lemma_cut_rows_one(Splitpoint::Cut(rough.len() as usize));
    let m = cut_rows(mid);
    let cs = cut_rows(sp);
    assert(cs =~= seq![0usize] + m + seq![rough.len() as usize]);
    assert(sp[0] == Splitpoint::Cut(0));
    assert forall|i: int| 0 <= i < cs.len() - 1 implies #[trigger] cs[i] <= cs[i + 1] <= cs[i] + max_height
        && (i < cs.len() - 2 ==> cs[i] + min_height <= cs[i + 1]) && (rough.len() > 0 ==> cs[i]
        < cs[i + 1]) by {
        if m.len() == 0 {
            assert(cs[1] == rough.len());
        } else if i == 0 {
            assert(cs[1] == m[0]);
        } else if i < cs.len() - 2 {
            assert(cs[i] == m[i - 1]);
            assert(cs[i + 1] == m[i]);
        } else {
            assert(cs[i] == m.last());
        }
    }
}

/// Two runs of the scan on the same rows with the same settings give the same markers.
pub proof fn lemma_splitpoints_deterministic(
    a: StripView,
    b: StripView,
    max_height: int,
    min_height: int,
    scan_interval: int,
    sensitivity: u8,
)
    requires
        a == b,
    ensures
        splitpoints_of(roughness(a), max_height, min_height, scan_interval, sensitivity)
            == splitpoints_of(roughness(b), max_height, min_height, scan_interval, sensitivity),
{
}

/// Runs one window: appends its markers to `sp` and returns the row it cut at.
fn scan_window(
    rough: &Vec<u8>,
    cursor: usize,
    span: usize,
    step: usize,
    limit: u8,
    sp: &mut Vec<Splitpoint>,
) -> (c: usize)
    requires
        1 <= step,
        1 <= span <= cursor <= rough@.len(),
    ensures
        final(sp)@ == old(sp)@ + window(rough@, cursor as int, span as int, step as int, limit as int).0,
        c == window(rough@, cursor as int, span as int, step as int, limit as int).1,
{
    let ghost r = rough@;
    let ghost start = sp@;
    let ghost j = first_clean(r, cursor as int, span as int, step as int, limit as int, 0);
    let base_len = sp.len();
    let mut i: usize = 0;
    let mut off: usize = 0;
    let mut best: usize = 0;
    let mut best_val: u8 = 255;
    let mut best_row: usize = cursor - 1;
    while off < span && step < span - off && step < span - off - step
        invariant
            1 <= step,
            1 <= span <= cursor <= r.len(),
            r == rough@,
            start == old(sp)@,
            base_len == start.len(),
            off == i * step,
            i <= off,
            off < span || i == 0,
            j == first_clean(r, cursor as int, span as int, step as int, limit as int, 0),
            first_clean(r, cursor as int, span as int, step as int, limit as int, i as nat) == j,
            fallback(r, cursor as int, step as int, i as nat) == (best as nat, best_val),
            best_row == sample_row(cursor as int, step as int, best as int),
            best <= i,
            i == 0 ==> best == 0,
            i > 0 ==> best < i,
            sp@ == start + Seq::new(
                i as nat,
                |t: int| Splitpoint::Skipped(sample_row(cursor as int, step as int, t) as usize),
            ),
        decreases span - off,
    {
        proof {
            assert((i + 2) * step == off + 2 * step) by (nonlinear_arith)
                requires
                    off == i * step,
            ;
            assert(has_triple(span as int, step as int, i as int));
        }
        let row = cursor - 1 - off;
        let a = rough[row];
        let b = rough[row - step];
        let c = rough[row - step - step];
        let t: u8 = if a >= b && a >= c {
            a
        } else if b >= c {
            b
        } else {
            c
        };
        assert(t == triple_max(r, cursor as int, step as int, i as int)) by {
            assert((i + 1) * step == off + step) by (nonlinear_arith)
                requires
                    off == i * step,
            ;
        }
        if t <= limit {
            sp.push(Splitpoint::Cut(row));
            proof {
                assert(j == i);
                let skipped = Seq::new(
                    j,
                    |t: int| Splitpoint::Skipped(sample_row(cursor as int, step as int, t) as usize),
                );
                assert(row == sample_row(cursor as int, step as int, j as int));
                let w = window(r, cursor as int, span as int, step as int, limit as int);
                assert(has_triple(span as int, step as int, j as int));
                assert(w.1 == row);
                assert(w.0 =~= skipped.push(Splitpoint::Cut(row)));
                assert(sp@ =~= start + skipped.push(Splitpoint::Cut(row)));
            }
            return row;
        }
        sp.push(Splitpoint::Skipped(row));
        if t < best_val {
            best = i;
            best_val = t;
            best_row = row;
        }
        proof {
            assert(sp@ =~= start + Seq::new(
                (i + 1) as nat,
                |t: int| Splitpoint::Skipped(sample_row(cursor as int, step as int, t) as usize),
            ));
            assert((i + 1) * step == off + step) by (nonlinear_arith)
                requires
                    off == i * step,
            ;
        }
        assert(i + 1 <= off + step) by (nonlinear_arith)
            requires
                off == i * step,
                step >= 1,
        ;
        i = i + 1;
        off = off + step;
    }
    proof {
        assert((i + 2) * step == off + 2 * step) by (nonlinear_arith)
            requires
                off == i * step,
        ;
        assert(!has_triple(span as int, step as int, i as int));
        assert(j == i);
    }
    let ghost skipped = Seq::new(
        j,
        |t: int| Splitpoint::Skipped(sample_row(cursor as int, step as int, t) as usize),
    );
    if i == 0 {
        sp.push(Splitpoint::Cut(cursor - 1));
        assert(sp@ =~= start + seq![Splitpoint::Cut((cursor - 1) as usize)]);
        cursor - 1
    } else {
        let cur_len = sp.len();
        assert(base_len + best < cur_len);
        sp.set(base_len + best, Splitpoint::Cut(best_row));
        assert(sp@ =~= start + skipped.update(best as int, Splitpoint::Cut(best_row)));
        best_row
    }
}

/// Finds the markers for a strip whose rows have roughness `rough`.
///
/// Windows of `max_height + 1 - min_height` rows are scanned from the bottom
/// up, every `scan_interval` rows; a sampled row is taken as a cut when it and
/// the next two samples all have roughness at most `255 - sensitivity`.
/// When no sample qualifies, the one starting the least rough triple becomes
/// the cut; a window too short for any triple cuts at its lowest row, so no
/// page is ever taller than `max_height`.
pub fn splitpoints_from_roughness(
    rough: &Vec<u8>,
    max_height: usize,
    min_height: usize,
    scan_interval: usize,
    sensitivity: u8,
) -> (r: Vec<Splitpoint>)
    requires
        scan_ok(max_height as int, min_height as int, scan_interval as int),
    ensures
        r@ == splitpoints_of(
            rough@,
            max_height as int,
            min_height as int,
            scan_interval as int,
            sensitivity,
        ),
{
    let ghost r = rough@;
    let ghost max = max_height as int;
    let ghost min = min_height as int;
    let ghost step = scan_interval as int;
    let limit: u8 = 255 - sensitivity;
    let n = rough.len();
    let mut sp: Vec<Splitpoint> = vec![Splitpoint::Cut(0)];
    if max_height < n {
        let target = max_height + 1;
        let span = target - min_height;
        let mut cursor: usize = target;
        while cursor <= n
            invariant_except_break
                sp@ + scan(r, cursor as int, max, min, step, limit as int) == seq![
                    Splitpoint::Cut(0),
                ] + scan(r, target as int, max, min, step, limit as int),
            invariant
                r == rough@,
                n == r.len(),
                scan_ok(max, min, step),
                max == max_height,
                min == min_height,
                step == scan_interval,
                target == max + 1,
                span == max + 1 - min,
                limit == 255 - sensitivity,
                cursor >= target,
            ensures
                sp@ == seq![Splitpoint::Cut(0)] + scan(r, target as int, max, min, step, limit as int),
            decreases (if cursor > n {
                0
            } else {
                n + 1 - cursor
            }),
        {
            let ghost before = sp@;
            let c = scan_window(rough, cursor, span, scan_interval, limit, &mut sp);
            proof {
                lemma_window_cut(r, cursor as int, max, min, step, limit as int);
                let w = window(r, cursor as int, span as int, step, limit as int);
                assert(scan(r, cursor as int, max, min, step, limit as int) == w.0 + scan(
                    r,
                    w.1 + max + 1,
                    max,
                    min,
                    step,
                    limit as int,
                ));
                assert(before + (w.0 + scan(r, w.1 + max + 1, max, min, step, limit as int)) =~= (
                before + w.0) + scan(r, w.1 + max + 1, max, min, step, limit as int));
            }
            match c.checked_add(target) {
                Some(next) => {
                    cursor = next;
                },
                None => {
                    proof {
                        assert(scan(r, c + target, max, min, step, limit as int) =~= Seq::empty());
                        assert(sp@ + Seq::<Splitpoint>::empty() =~= sp@);
                    }
                    break ;
                },
            }
        }
    } else {
        assert(scan(r, max + 1, max, min, step, limit as int) =~= Seq::empty());
    }
    sp.push(Splitpoint::Cut(n));
    assert(sp@ =~= splitpoints_of(r, max, min, step, sensitivity));
    sp
}

/// Finds where to cut a strip into pages.
///
/// `max_height` bounds every page; `min_height` keeps every page but the last
/// from being shorter; only every `scan_interval`-th row is examined, and
/// `sensitivity` (0 to 255) sets how even a row must be to be cut at.
pub fn find_splitpoints(
    image: &Strip,
    max_height: usize,
    min_height: usize,
    scan_interval: usize,
    sensitivity: u8,
) -> (r: Vec<Splitpoint>)
    requires
        scan_ok(max_height as int, min_height as int, scan_interval as int),
    ensures
        r@ == splitpoints_of(
            roughness(image@),
            max_height as int,
            min_height as int,
            scan_interval as int,
            sensitivity,
        ),
{
    let rough = image.row_roughness();
    splitpoints_from_roughness(&rough, max_height, min_height, scan_interval, sensitivity)
}

} // verus!
