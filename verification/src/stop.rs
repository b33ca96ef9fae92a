use vstd::prelude::*;

verus! {

/// One scan of the pending output bytes against a single stop pattern,
/// from position `i` with the current match attempt starting at `safe`.
///
/// The scanner walks the buffer once; on a mismatch it restarts the attempt at
/// the byte after the mismatch. It reports `(safe, matched)`: `buf[..safe]` is
/// clear of any (partial) match, and `matched` says a full occurrence was
/// found at `safe`. It deliberately does not track overlapping partial
/// matches inside the pattern.
pub open spec fn scan_from(buf: Seq<u8>, stop: Seq<u8>, safe: nat, i: nat) -> (nat, bool)
    recommends
        safe <= i <= buf.len(),
        i - safe <= stop.len(),
    decreases buf.len() - i,
{
    if i >= buf.len() {
        (safe, i - safe >= stop.len())
    } else if i - safe >= stop.len() {
        (safe, true)
    } else if buf[i as int] == stop[(i - safe) as int] {
        scan_from(buf, stop, safe, (i + 1) as nat)
    } else {
        scan_from(buf, stop, (i + 1) as nat, (i + 1) as nat)
    }
}

/// The scan of a whole buffer against one stop pattern.
pub open spec fn scan(buf: Seq<u8>, stop: Seq<u8>) -> (nat, bool) {
    scan_from(buf, stop, 0, 0)
}

pub proof fn lemma_scan_from_bound(buf: Seq<u8>, stop: Seq<u8>, safe: nat, i: nat)
    requires
        safe <= i <= buf.len(),
    ensures
        scan_from(buf, stop, safe, i).0 <= buf.len(),
        safe <= scan_from(buf, stop, safe, i).0,
    decreases buf.len() - i,
{
    if i >= buf.len() || i - safe >= stop.len() {
    } else if buf[i as int] == stop[(i - safe) as int] {
        lemma_scan_from_bound(buf, stop, safe, (i + 1) as nat);
    } else {
        lemma_scan_from_bound(buf, stop, (i + 1) as nat, (i + 1) as nat);
    }
}

/// A reported match is byte-exact: the stop pattern occurs in the buffer at
/// the reported cut, whatever token boundaries produced those bytes.
pub proof fn lemma_scan_match_exact(buf: Seq<u8>, stop: Seq<u8>)
    requires
        scan(buf, stop).1,
    ensures
        scan(buf, stop).0 + stop.len() <= buf.len(),
        buf.subrange(scan(buf, stop).0 as int, scan(buf, stop).0 + stop.len() as int) == stop,
{
    assert(buf.subrange(0, 0) =~= stop.subrange(0, 0));
    lemma_scan_match_from(buf, stop, 0, 0);
}

proof fn lemma_scan_match_from(buf: Seq<u8>, stop: Seq<u8>, safe: nat, i: nat)
    requires
        safe <= i <= buf.len(),
        i - safe <= stop.len(),
        buf.subrange(safe as int, i as int) == stop.subrange(0, i - safe),
        scan_from(buf, stop, safe, i).1,
    ensures
        scan_from(buf, stop, safe, i).0 + stop.len() <= buf.len(),
        buf.subrange(
            scan_from(buf, stop, safe, i).0 as int,
            scan_from(buf, stop, safe, i).0 + stop.len() as int,
        ) == stop,
    decreases buf.len() - i,
{
    if i >= buf.len() {
        assert(i - safe == stop.len());
        assert(buf.subrange(safe as int, safe + stop.len() as int) =~= stop);
    } else if i - safe >= stop.len() {
        assert(buf.subrange(safe as int, safe + stop.len() as int) =~= stop);
    } else if buf[i as int] == stop[(i - safe) as int] {
        assert(buf.subrange(safe as int, i as int + 1) =~= stop.subrange(0, i as int + 1 - safe));
        lemma_scan_match_from(buf, stop, safe, (i + 1) as nat);
    } else {
        assert(buf.subrange(i as int + 1, i as int + 1) =~= stop.subrange(0, 0));
        lemma_scan_match_from(buf, stop, (i + 1) as nat, (i + 1) as nat);
    }
}

/// Scan a buffer against one stop pattern.
pub fn scan_stop(buf: &Vec<u8>, stop: &Vec<u8>) -> (r: (usize, bool))
    ensures
        (r.0 as nat, r.1) == scan(buf@, stop@),
        r.0 <= buf@.len(),
{
    let n = buf.len();
    let m = stop.len();
    let mut safe: usize = 0;
    let mut i: usize = 0;
    while i < n
        invariant
            safe <= i <= n,
            n == buf@.len(),
            m == stop@.len(),
            i - safe <= m,
            scan_from(buf@, stop@, safe as nat, i as nat) == scan(buf@, stop@),
        decreases n - i,
    {
        if i - safe >= m {
            proof {
                lemma_scan_from_bound(buf@, stop@, safe as nat, i as nat);
            }
            return (safe, true);
        }
        if buf[i] == stop[i - safe] {
            i += 1;
        } else {
            i += 1;
            safe = i;
        }
    }
    (safe, i - safe >= m)
}

/// Is `(a_safe, a_matched)` a strictly better cut than `(b_safe, b_matched)`?
/// A match beats a non-match; among equals the smaller cut wins.
pub open spec fn cut_better(a: (nat, bool), b: (nat, bool)) -> bool {
    (a.1 && !b.1) || (a.1 == b.1 && a.0 < b.0)
}

/// The best cut over the stop patterns `stops[i..]`, folding from `acc`.
/// Mirrors a minimum that keeps the earliest of equal candidates.
pub open spec fn best_cut_from(stops: Seq<Seq<u8>>, buf: Seq<u8>, acc: (nat, bool), i: nat) -> (
    nat,
    bool,
)
    decreases stops.len() - i,
{
    if i >= stops.len() {
        acc
    } else {
        let c = scan(buf, stops[i as int]);
        best_cut_from(stops, buf, if cut_better(c, acc) { c } else { acc }, (i + 1) as nat)
    }
}

/// The chosen cut of the buffer over all stop patterns: with no patterns the
/// whole buffer is safe and nothing matched.
pub open spec fn best_cut(stops: Seq<Seq<u8>>, buf: Seq<u8>) -> (nat, bool) {
    if stops.len() == 0 {
        (buf.len(), false)
    } else {
        best_cut_from(stops, buf, scan(buf, stops[0]), 1)
    }
}

proof fn lemma_best_cut_from_bound(stops: Seq<Seq<u8>>, buf: Seq<u8>, acc: (nat, bool), i: nat)
    requires
        acc.0 <= buf.len(),
    ensures
        best_cut_from(stops, buf, acc, i).0 <= buf.len(),
    decreases stops.len() - i,
{
    if i < stops.len() {
        let c = scan(buf, stops[i as int]);
        lemma_scan_from_bound(buf, stops[i as int], 0, 0);
        lemma_best_cut_from_bound(
            stops,
            buf,
            if cut_better(c, acc) {
                c
            } else {
                acc
            },
            (i + 1) as nat,
        );
    }
}

pub proof fn lemma_best_cut_bound(stops: Seq<Seq<u8>>, buf: Seq<u8>)
    ensures
        best_cut(stops, buf).0 <= buf.len(),
{
    if stops.len() > 0 {
        lemma_scan_from_bound(buf, stops[0], 0, 0);
        lemma_best_cut_from_bound(stops, buf, scan(buf, stops[0]), 1);
    }
}

/// The concatenation of the views of two lists of stop patterns, the
/// per-request ones first, then the process-wide ones.
pub open spec fn stops_view(a: Seq<Vec<u8>>, b: Seq<Vec<u8>>) -> Seq<Seq<u8>> {
    a.map_values(|v: Vec<u8>| v@) + b.map_values(|v: Vec<u8>| v@)
}

/// The best cut of the buffer over the request's stop patterns chained with
/// the process-wide ones.
pub fn find_cut(buf: &Vec<u8>, request_stops: &Vec<Vec<u8>>, global_stops: &Vec<Vec<u8>>) -> (r: (
    usize,
    bool,
))
    ensures
        (r.0 as nat, r.1) == best_cut(stops_view(request_stops@, global_stops@), buf@),
        r.0 <= buf@.len(),
{
    let ghost stops = stops_view(request_stops@, global_stops@);
    let n1 = request_stops.len();
    let n2 = global_stops.len();
    proof {
        lemma_best_cut_bound(stops, buf@);
    }
    if n1 == 0 && n2 == 0 {
        return (buf.len(), false);
    }
    let mut acc: (usize, bool);
    let mut i: usize;
    if n1 > 0 {
        acc = scan_stop(buf, &request_stops[0]);
        assert(stops[0] == request_stops@[0]@);
        i = 1;
        while i < n1
            invariant
                1 <= i <= n1,
                n1 == request_stops@.len(),
                n2 == global_stops@.len(),
                stops == stops_view(request_stops@, global_stops@),
                stops.len() == n1 + n2,
                acc.0 <= buf@.len(),
                best_cut_from(stops, buf@, (acc.0 as nat, acc.1), i as nat) == best_cut(
                    stops,
                    buf@,
                ),
            decreases n1 - i,
        {
            let c = scan_stop(buf, &request_stops[i]);
            assert(stops[i as int] == request_stops@[i as int]@);
            if (c.1 && !acc.1) || (c.1 == acc.1 && c.0 < acc.0) {
                assert(cut_better((c.0 as nat, c.1), (acc.0 as nat, acc.1)));
                acc = c;
            } else {
                assert(!cut_better((c.0 as nat, c.1), (acc.0 as nat, acc.1)));
            }
            i += 1;
        }
    } else {
        acc = scan_stop(buf, &global_stops[0]);
        assert(stops[0] == global_stops@[0]@);
        i = 1;
    }
    let start: usize = if n1 > 0 {
        0
    } else {
        1
    };
    assert(i == n1 || (n1 == 0 && i == 1));
    let mut j: usize = start;
    while j < n2
        invariant
            start <= j <= n2,
            n1 == request_stops@.len(),
            n2 == global_stops@.len(),
            start == (if n1 > 0 {
                0int
            } else {
                1int
            }),
            stops == stops_view(request_stops@, global_stops@),
            stops.len() == n1 + n2,
            acc.0 <= buf@.len(),
            best_cut_from(stops, buf@, (acc.0 as nat, acc.1), (n1 + j) as nat) == best_cut(
                stops,
                buf@,
            ),
        decreases n2 - j,
    {
        let c = scan_stop(buf, &global_stops[j]);
        assert(stops[n1 + j] == global_stops@[j as int]@);
        if (c.1 && !acc.1) || (c.1 == acc.1 && c.0 < acc.0) {
            assert(cut_better((c.0 as nat, c.1), (acc.0 as nat, acc.1)));
            acc = c;
        } else {
            assert(!cut_better((c.0 as nat, c.1), (acc.0 as nat, acc.1)));
        }
        j += 1;
    }
    acc
}

} // verus!
