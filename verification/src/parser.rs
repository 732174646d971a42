//! The access-unit parser: a restartable scanner that turns an arbitrarily
//! fragmented byte stream into complete, classified access units.
//!
//! Units are delimited by start-code markers, either `00 00 01` or
//! `00 00 00 01`.  Each emitted unit runs from one marker to the next and
//! keeps its leading marker.  The tail after the last marker stays in a
//! carry buffer for the next call; a markerless carry is capped so malformed
//! input cannot grow it without bound.

use vstd::prelude::*;

verus! {

/// A markerless carry longer than this is cut back to its last three bytes,
/// which is all that a marker straddling the chunk boundary can need.
pub const CARRY_CAP: usize = 1048576;

/// A four-byte start code `00 00 00 01` begins at `i`.
pub open spec fn four_at(b: Seq<u8>, i: int) -> bool {
    &&& 0 <= i
    &&& i + 4 <= b.len()
    &&& b[i] == 0
    &&& b[i + 1] == 0
    &&& b[i + 2] == 0
    &&& b[i + 3] == 1
}

/// A three-byte start code `00 00 01` begins at `i` and is not the tail of
/// a four-byte one.
pub open spec fn three_at(b: Seq<u8>, i: int) -> bool {
    &&& 0 <= i
    &&& i + 3 <= b.len()
    &&& b[i] == 0
    &&& b[i + 1] == 0
    &&& b[i + 2] == 1
    &&& (i == 0 || b[i - 1] != 0)
}

/// A start-code marker begins at `i`.
pub open spec fn is_start_at(b: Seq<u8>, i: int) -> bool {
    four_at(b, i) || three_at(b, i)
}

/// Type codes that open an independently decodable segment: an IDR slice
/// and the two in-band parameter sets a decoder needs.
pub open spec fn sync_code(code: u8) -> bool {
    code == 5 || code == 7 || code == 8
}

/// Classification of the unit spanning `[p, q)`: the type code sits in the
/// low five bits of the first byte after the marker; a unit too short to
/// hold that byte is conservatively not a sync point.
pub open spec fn unit_is_sync(b: Seq<u8>, p: int, q: int) -> bool {
    let tb = if four_at(b, p) {
        p + 4
    } else {
        p + 3
    };
    tb < q && sync_code(b[tb] & 0x1f)
}

/// One classified access unit.
pub struct UnitModel {
    pub payload: Seq<u8>,
    pub is_sync_point: bool,
}

/// The unit spanning `[p, q)` of the scanned bytes, marker included.
pub open spec fn unit_at(b: Seq<u8>, p: int, q: int) -> UnitModel {
    UnitModel { payload: b.subrange(p, q), is_sync_point: unit_is_sync(b, p, q) }
}

/// Left-to-right scan from position `i`, with `last` the most recent marker
/// position already seen: emits one unit per marker pair.
pub open spec fn scan_units(b: Seq<u8>, i: int, last: Option<int>) -> Seq<UnitModel>
    decreases b.len() - i,
{
    if i < 0 || i >= b.len() {
        Seq::empty()
    } else if is_start_at(b, i) {
        match last {
            Some(p) => seq![unit_at(b, p, i)] + scan_units(b, i + 1, Some(i)),
            None => scan_units(b, i + 1, Some(i)),
        }
    } else {
        scan_units(b, i + 1, last)
    }
}

/// Position of the last marker found by the same scan.
pub open spec fn scan_last(b: Seq<u8>, i: int, last: Option<int>) -> Option<int>
    decreases b.len() - i,
{
    if i < 0 || i >= b.len() {
        last
    } else if is_start_at(b, i) {
        scan_last(b, i + 1, Some(i))
    } else {
        scan_last(b, i + 1, last)
    }
}

/// All complete units a full scan of `b` yields.
pub open spec fn units_of(b: Seq<u8>) -> Seq<UnitModel> {
    scan_units(b, 0, None)
}

/// The last marker position in `b`, if any.
pub open spec fn last_start(b: Seq<u8>) -> Option<int> {
    scan_last(b, 0, None)
}

/// What one feed call leaves in the carry: the tail from the last marker
/// on, or, with no marker at all, the whole buffer, cut back to its last
/// three bytes once it outgrows the cap.
pub open spec fn post_carry(b: Seq<u8>) -> Seq<u8> {
    match last_start(b) {
        Some(p) => b.skip(p),
        None => if b.len() > CARRY_CAP {
            b.skip(b.len() - 3)
        } else {
            b
        },
    }
}

/// One classified access unit as the parser hands it out.
pub struct ParsedUnit {
    pub payload: Vec<u8>,
    pub is_sync_point: bool,
}

impl View for ParsedUnit {
    type V = UnitModel;

    open spec fn view(&self) -> UnitModel {
        UnitModel { payload: self.payload@, is_sync_point: self.is_sync_point }
    }
}

/// The unit sequence a `Vec<ParsedUnit>` stands for.
pub open spec fn unit_models(s: Seq<ParsedUnit>) -> Seq<UnitModel> {
    s.map_values(|u: ParsedUnit| u@)
}

/// The stateful scanner.  Its view is the current carry: the bytes received
/// so far that no emitted unit has consumed.
pub struct AccessUnitParser {
    carry: Vec<u8>,
}

/// Checks for a start-code marker at position `i`.
fn is_start(buf: &Vec<u8>, i: usize) -> (r: bool)
    requires
        i < buf@.len(),
    ensures
        r == is_start_at(buf@, i as int),
{
    let n = buf.len();
    if n - i >= 4 && buf[i] == 0 && buf[i + 1] == 0 && buf[i + 2] == 0 && buf[i + 3] == 1 {
        return true;
    }
    if n - i >= 3 && buf[i] == 0 && buf[i + 1] == 0 && buf[i + 2] == 1 && (i == 0 || buf[i - 1]
        != 0) {
        return true;
    }
    false
}

/// Copies `buf[from..to]` into a fresh vector.
fn subrange_vec(buf: &Vec<u8>, from: usize, to: usize) -> (r: Vec<u8>)
    requires
        from <= to <= buf@.len(),
    ensures
        r@ == buf@.subrange(from as int, to as int),
{
    let mut r: Vec<u8> = Vec::with_capacity(to - from);
    let mut i: usize = from;
    while i < to
        invariant
            from <= i <= to <= buf@.len(),
            r@ == buf@.subrange(from as int, i as int),
        decreases to - i,
    {
        r.push(buf[i]);
        proof {
            assert(buf@.subrange(from as int, i + 1) =~= buf@.subrange(from as int, i as int).push(
                buf@[i as int],
            ));
        }
        i = i + 1;
    }
    r
}

/// Builds the classified unit spanning `[p, q)` of the scan buffer.
fn make_unit(buf: &Vec<u8>, p: usize, q: usize) -> (u: ParsedUnit)
    requires
        p < q <= buf@.len(),
    ensures
        u@ == unit_at(buf@, p as int, q as int),
{
    let payload = subrange_vec(buf, p, q);
    let n = buf.len();
    let marker_len: usize = if n - p >= 4 && buf[p] == 0 && buf[p + 1] == 0 && buf[p + 2] == 0
        && buf[p + 3] == 1 {
        4
    } else {
        3
    };
    assert(marker_len == 4 <==> four_at(buf@, p as int));
    let is_sync_point = if q - p > marker_len {
        let code = buf[p + marker_len] & 0x1f;
        code == 5 || code == 7 || code == 8
    } else {
        false
    };
    ParsedUnit { payload, is_sync_point }
}

impl View for AccessUnitParser {
    type V = Seq<u8>;

    closed spec fn view(&self) -> Seq<u8> {
        self.carry@
    }
}

impl AccessUnitParser {
    /// A fresh scanner with an empty carry.
    pub fn new() -> (r: Self)
        ensures
            r@ =~= Seq::<u8>::empty(),
    {
        AccessUnitParser { carry: Vec::new() }
    }

    /// Bytes currently held back as a possible unit in progress.
    pub fn carry_len(&self) -> (r: usize)
        ensures
            r == self@.len(),
    {
        self.carry.len()
    }

    /// Appends `chunk` to the carry, emits every unit that now lies between
    /// two markers, and keeps the tail from the last marker as the new
    /// carry.  Malformed input never raises an error: an unclassifiable
    /// unit is simply not a sync point, and a markerless carry is cut back
    /// once it exceeds `CARRY_CAP` bytes.
    pub fn feed(&mut self, chunk: &[u8]) -> (units: Vec<ParsedUnit>)
        requires
            old(self)@.len() + chunk@.len() <= usize::MAX,
        ensures
            unit_models(units@) == units_of(old(self)@ + chunk@),
            final(self)@ == post_carry(old(self)@ + chunk@),
    {
        // gather carry and chunk into one scan buffer
        let mut buf: Vec<u8> = Vec::with_capacity(self.carry.len() + chunk.len());
        let n_carry = self.carry.len();
        let mut i: usize = 0;
        while i < n_carry
            invariant
                i <= n_carry == self.carry@.len(),
                buf@ == self.carry@.subrange(0, i as int),
            decreases n_carry - i,
        {
            buf.push(self.carry[i]);
            proof {
                assert(self.carry@.subrange(0, i + 1) =~= self.carry@.subrange(0, i as int).push(
                    self.carry@[i as int],
                ));
            }
            i = i + 1;
        }
        proof {
            assert(self.carry@.subrange(0, n_carry as int) =~= self.carry@);
        }
        let n_chunk = chunk.len();
        let mut j: usize = 0;
        while j < n_chunk
            invariant
                j <= n_chunk == chunk@.len(),
                n_carry == self.carry@.len(),
                buf@ == self.carry@ + chunk@.subrange(0, j as int),
            decreases n_chunk - j,
        {
            buf.push(chunk[j]);
            proof {
                assert(self.carry@ + chunk@.subrange(0, j + 1) =~= (self.carry@
                    + chunk@.subrange(0, j as int)).push(chunk@[j as int]));
            }
            j = j + 1;
        }
        let ghost bs = buf@;
        proof {
            assert(bs =~= old(self)@ + chunk@);
        }

        // scan for markers, emitting a unit per consecutive pair
        let b_len = buf.len();
        let mut units: Vec<ParsedUnit> = Vec::new();
        let mut last: Option<usize> = None;
        let mut pos: usize = 0;
        proof {
            assert(unit_models(units@) =~= Seq::<UnitModel>::empty());
        }
        while pos < b_len
            invariant
                pos <= b_len == bs.len(),
                bs == buf@,
                match last {
                    Some(p) => p < pos,
                    None => true,
                },
                unit_models(units@) + scan_units(
                    bs,
                    pos as int,
                    match last {
                        Some(p) => Some(p as int),
                        None => None,
                    },
                ) == units_of(bs),
                scan_last(
                    bs,
                    pos as int,
                    match last {
                        Some(p) => Some(p as int),
                        None => None,
                    },
                ) == last_start(bs),
            decreases b_len - pos,
        {
            let ghost last_spec: Option<int> = match last {
                Some(p) => Some(p as int),
                None => None,
            };
            if is_start(&buf, pos) {
                match last {
                    Some(p) => {
                        let u = make_unit(&buf, p, pos);
                        let ghost units_pre = units@;
                        units.push(u);
                        proof {
                            assert(unit_models(units@) =~= unit_models(units_pre).push(u@));
                            assert(scan_units(bs, pos as int, last_spec) == seq![
                                unit_at(bs, p as int, pos as int),
                            ] + scan_units(bs, pos + 1, Some(pos as int)));
                            assert(unit_models(units@) + scan_units(bs, pos + 1, Some(pos as int))
                                =~= unit_models(units_pre) + scan_units(bs, pos as int, last_spec));
                        }
                    },
                    None => {},
                }
                last = Some(pos);
            }
            pos = pos + 1;
        }
        proof {
            let last_spec: Option<int> = match last {
                Some(p) => Some(p as int),
                None => None,
            };
            assert(scan_units(bs, b_len as int, last_spec) =~= Seq::<UnitModel>::empty());
            assert(unit_models(units@) + Seq::<UnitModel>::empty() =~= unit_models(units@));
            assert(scan_last(bs, b_len as int, last_spec) == last_spec);
        }

        // the tail from the last marker is the next carry
        match last {
            Some(p) => {
                self.carry = subrange_vec(&buf, p, b_len);
                proof {
                    assert(bs.subrange(p as int, b_len as int) =~= bs.skip(p as int));
                }
            },
            None => {
                if b_len > CARRY_CAP {
                    self.carry = subrange_vec(&buf, b_len - 3, b_len);
                    proof {
                        assert(bs.subrange(b_len - 3, b_len as int) =~= bs.skip(b_len - 3));
                    }
                } else {
                    self.carry = buf;
                }
            },
        }
        units
    }
}


/// Shifts an optional position by `k`.
pub open spec fn opt_add(o: Option<int>, k: int) -> Option<int> {
    match o {
        Some(p) => Some(p + k),
        None => None,
    }
}

/// Markers survive appending bytes, and a position whose whole window lies
/// inside the old bytes is a marker afterwards exactly when it was one.
proof fn lemma_start_extend(b: Seq<u8>, t: Seq<u8>, q: int)
    ensures
        is_start_at(b, q) ==> is_start_at(b + t, q),
        q + 4 <= b.len() ==> is_start_at(b + t, q) == is_start_at(b, q),
{
    let u = b + t;
    assert(forall|j: int| 0 <= j < b.len() ==> u[j] == b[j]);
}

/// Cutting `s` at `base` keeps marker positions meaningful in the suffix:
/// the cut sits at the very front, on a marker, or three bytes from the end
/// of a completely markerless buffer.
pub open spec fn cut_ok(s: Seq<u8>, base: int) -> bool {
    ||| base == 0
    ||| is_start_at(s, base)
    ||| (base == s.len() - 3 && 1 <= base && (forall|p: int| !is_start_at(s, p)))
}

/// Under a valid cut, marker positions in the suffix-plus-tail agree with
/// marker positions in the whole-plus-tail.
proof fn lemma_start_correspond(s: Seq<u8>, t: Seq<u8>, base: int, q: int)
    requires
        0 <= base <= s.len(),
        0 <= q,
        cut_ok(s, base),
    ensures
        is_start_at(s.skip(base) + t, q) == is_start_at(s + t, base + q),
{
    let c = s.skip(base) + t;
    let u = s + t;
    assert(c =~= u.skip(base));
    assert forall|j: int| 0 <= j < c.len() implies c[j] == u[base + j] by {
        assert(u.skip(base)[j] == u[base + j]);
    }
    assert(c.len() == u.len() - base);
    if q >= 1 {
        assert(four_at(c, q) == four_at(u, base + q));
        assert(three_at(c, q) == three_at(u, base + q));
    } else {
        // q == 0: the suffix has no predecessor byte, the whole does
        if base == 0 {
            assert(c =~= u);
        } else if is_start_at(s, base) {
            assert(forall|j: int| 0 <= j < s.len() ==> u[j] == s[j]);
            if four_at(s, base) {
                assert(four_at(c, 0));
                assert(four_at(u, base));
            } else {
                assert(three_at(s, base));
                assert(s[base - 1] != 0);
                assert(c[0] == s[base] && c[1] == s[base + 1] && c[2] == s[base + 2]);
                assert(three_at(c, 0));
                assert(three_at(u, base));
                assert(!four_at(c, 0) && !four_at(u, base));
            }
        } else {
            // markerless cut, three bytes from the end
            assert(base == s.len() - 3);
            assert(forall|j: int| 0 <= j < s.len() ==> u[j] == s[j]);
            assert(c[0] == s[base] && c[1] == s[base + 1] && c[2] == s[base + 2]);
            // the three kept bytes cannot read 00 00 01: that would have
            // been a marker (three-byte, or four-byte one position earlier)
            if s[base] == 0 && s[base + 1] == 0 && s[base + 2] == 1 {
                if s[base - 1] != 0 {
                    assert(three_at(s, base));
                    assert(is_start_at(s, base));
                } else {
                    assert(four_at(s, base - 1));
                    assert(is_start_at(s, base - 1));
                }
                assert(false);
            }
            assert(!three_at(c, 0) && !three_at(u, base));
            assert(four_at(c, 0) == four_at(u, base));
        }
    }
}

/// Under a valid cut, scanning the whole-plus-tail from a position at or
/// past the cut yields the same units and the same (shifted) last marker
/// as scanning the suffix-plus-tail.
proof fn lemma_scan_correspond(s: Seq<u8>, t: Seq<u8>, base: int, i: int, pc: Option<int>)
    requires
        0 <= base <= s.len(),
        cut_ok(s, base),
        base <= i <= (s + t).len(),
        match pc {
            Some(p) => 0 <= p && base + p < i,
            None => true,
        },
    ensures
        scan_units(s + t, i, opt_add(pc, base)) == scan_units(s.skip(base) + t, i - base, pc),
        scan_last(s + t, i, opt_add(pc, base)) == opt_add(scan_last(s.skip(base) + t, i - base, pc), base),
    decreases (s + t).len() - i,
{
    let c = s.skip(base) + t;
    let u = s + t;
    assert(c =~= u.skip(base));
    assert forall|j: int| 0 <= j < c.len() implies c[j] == u[base + j] by {
        assert(u.skip(base)[j] == u[base + j]);
    }
    assert(c.len() == u.len() - base);
    if i >= u.len() {
        assert(i - base >= c.len());
    } else {
        lemma_start_correspond(s, t, base, i - base);
        assert(is_start_at(u, i) == is_start_at(c, i - base));
        if is_start_at(u, i) {
            lemma_scan_correspond(s, t, base, i + 1, Some(i - base));
            match pc {
                Some(p) => {
                    // the emitted unit is the same on both sides
                    let pu = p + base;
                    assert(u.subrange(pu, i) =~= c.subrange(p, i - base));
                    lemma_start_correspond(s, t, base, p);
                    assert(four_at(u, pu) == four_at(c, p)) by {
                        if three_at(u, pu) || three_at(c, p) {
                            assert(!four_at(u, pu) && !four_at(c, p));
                        }
                        assert(is_start_at(u, pu) == is_start_at(c, p));
                    }
                    assert(unit_is_sync(u, pu, i) == unit_is_sync(c, p, i - base));
                    assert(unit_at(u, pu, i) == unit_at(c, p, i - base));
                    assert(scan_units(u, i, opt_add(pc, base)) == seq![unit_at(u, pu, i)]
                        + scan_units(u, i + 1, Some(i)));
                    assert(scan_units(c, i - base, pc) == seq![unit_at(c, p, i - base)]
                        + scan_units(c, i - base + 1, Some(i - base)));
                },
                None => {},
            }
        } else {
            lemma_scan_correspond(s, t, base, i + 1, pc);
        }
    }
}

/// What `scan_last` computes: starting from a correct summary of the bytes
/// before `i`, it ends with the position of the last marker overall.
proof fn lemma_scan_last_char(b: Seq<u8>, i: int, last: Option<int>)
    requires
        0 <= i <= b.len(),
        match last {
            Some(p) => 0 <= p < i && is_start_at(b, p) && forall|m: int|
                p < m < i ==> !is_start_at(b, m),
            None => forall|m: int| 0 <= m < i ==> !is_start_at(b, m),
        },
    ensures
        match scan_last(b, i, last) {
            Some(p) => 0 <= p < b.len() && is_start_at(b, p) && forall|m: int|
                p < m < b.len() ==> !is_start_at(b, m),
            None => forall|m: int| 0 <= m < b.len() ==> !is_start_at(b, m),
        },
    decreases b.len() - i,
{
    if i < b.len() {
        if is_start_at(b, i) {
            lemma_scan_last_char(b, i + 1, Some(i));
        } else {
            lemma_scan_last_char(b, i + 1, last);
        }
    }
}

/// Scanning across a marker-free span changes nothing.
proof fn lemma_scan_no_starts(b: Seq<u8>, i: int, j: int, last: Option<int>)
    requires
        0 <= i <= j <= b.len(),
        forall|m: int| i <= m < j ==> !is_start_at(b, m),
    ensures
        scan_units(b, i, last) == scan_units(b, j, last),
        scan_last(b, i, last) == scan_last(b, j, last),
    decreases j - i,
{
    if i < j {
        lemma_scan_no_starts(b, i + 1, j, last);
    }
}


/// Scanning the extended buffer up to the last marker of the old bytes
/// yields exactly the old buffer's units, followed by whatever the scan
/// finds past that marker.
proof fn lemma_scan_prefix(s: Seq<u8>, t: Seq<u8>, p: int, i: int, last: Option<int>)
    requires
        0 <= i <= p,
        p + 3 <= s.len(),
        is_start_at(s, p),
        forall|m: int| p < m < s.len() ==> !is_start_at(s, m),
        match last {
            Some(l) => 0 <= l < i,
            None => true,
        },
    ensures
        scan_units(s + t, i, last) == scan_units(s, i, last) + scan_units(s + t, p + 1, Some(p)),
    decreases p - i,
{
    let u = s + t;
    assert(forall|j: int| 0 <= j < s.len() ==> u[j] == s[j]);
    lemma_start_extend(s, t, i);
    if i == p {
        assert(is_start_at(u, p));
        // in the old bytes, nothing follows the last marker
        assert forall|m: int| p + 1 <= m < s.len() implies !is_start_at(s, m) by {}
        lemma_scan_no_starts(s, p + 1, s.len() as int, Some(p));
        assert(scan_units(s, s.len() as int, Some(p)) == Seq::<UnitModel>::empty());
        match last {
            Some(l) => {
                assert(unit_at(u, l, p) == unit_at(s, l, p)) by {
                    assert(u.subrange(l, p) =~= s.subrange(l, p));
                    lemma_start_extend(s, t, l);
                    assert(four_at(u, l) == four_at(s, l));
                }
                assert(scan_units(u, p, last) == seq![unit_at(u, l, p)] + scan_units(
                    u,
                    p + 1,
                    Some(p),
                ));
                assert(scan_units(s, p, last) == seq![unit_at(s, l, p)] + scan_units(
                    s,
                    p + 1,
                    Some(p),
                ));
                assert(scan_units(s, p, last) == seq![unit_at(s, l, p)]
                    + Seq::<UnitModel>::empty());
                assert(seq![unit_at(s, l, p)] + Seq::<UnitModel>::empty() =~= seq![
                    unit_at(s, l, p),
                ]);
                assert((seq![unit_at(u, l, p)]) + scan_units(u, p + 1, Some(p)) =~= (seq![
                    unit_at(s, l, p),
                ] + Seq::<UnitModel>::empty()) + scan_units(u, p + 1, Some(p)));
            },
            None => {
                assert(scan_units(u, p, last) == scan_units(u, p + 1, Some(p)));
                assert(scan_units(s, p, last) == scan_units(s, p + 1, Some(p)));
                assert(Seq::<UnitModel>::empty() + scan_units(u, p + 1, Some(p)) =~= scan_units(
                    u,
                    p + 1,
                    Some(p),
                ));
            },
        }
    } else {
        // i < p: both scans take the same branch here
        assert(i + 4 <= s.len());
        assert(is_start_at(u, i) == is_start_at(s, i));
        if is_start_at(s, i) {
            lemma_scan_prefix(s, t, p, i + 1, Some(i));
            match last {
                Some(l) => {
                    assert(unit_at(u, l, i) == unit_at(s, l, i)) by {
                        assert(u.subrange(l, i) =~= s.subrange(l, i));
                        lemma_start_extend(s, t, l);
                        assert(four_at(u, l) == four_at(s, l));
                    }
                    assert(scan_units(s, i, last) == seq![unit_at(s, l, i)] + scan_units(
                        s,
                        i + 1,
                        Some(i),
                    ));
                    assert(scan_units(u, i, last) == seq![unit_at(u, l, i)] + scan_units(
                        u,
                        i + 1,
                        Some(i),
                    ));
                    assert((seq![unit_at(s, l, i)] + scan_units(s, i + 1, Some(i))) + scan_units(
                        u,
                        p + 1,
                        Some(p),
                    ) =~= seq![unit_at(s, l, i)] + (scan_units(s, i + 1, Some(i)) + scan_units(
                        u,
                        p + 1,
                        Some(p),
                    )));
                },
                None => {},
            }
        } else {
            lemma_scan_prefix(s, t, p, i + 1, last);
        }
    }
}

/// Feeding `t` after `s` emits exactly what a fresh scan of `s` emits
/// followed by what scanning the retained carry plus `t` emits.  This is
/// the step case of parser restartability: where the stream is split does
/// not change the units.
pub proof fn lemma_feed_composes(s: Seq<u8>, t: Seq<u8>)
    ensures
        units_of(s + t) == units_of(s) + units_of(post_carry(s) + t),
{
    lemma_scan_last_char(s, 0, None);
    let u = s + t;
    match last_start(s) {
        Some(p) => {
            assert(p + 3 <= s.len());
            let c = s.skip(p);
            assert(post_carry(s) == c);
            lemma_scan_prefix(s, t, p, 0, None);
            assert(units_of(u) == units_of(s) + scan_units(u, p + 1, Some(p)));
            // the continuation equals a fresh scan of carry + t
            lemma_start_correspond(s, t, p, 0);
            lemma_start_extend(s, t, p);
            assert(is_start_at(c + t, 0));
            assert((c + t).len() >= 3);
            assert(scan_units(c + t, 0, None) == scan_units(c + t, 1, Some(0)));
            lemma_scan_correspond(s, t, p, p + 1, Some(0));
            assert(opt_add(Some(0), p) == Some(p));
            assert(scan_units(u, p + 1, Some(p)) == scan_units(c + t, 1, Some(0)));
        },
        None => {
            // no marker in the old bytes: they contribute no units
            lemma_scan_no_starts(s, 0, s.len() as int, None);
            assert(units_of(s) == Seq::<UnitModel>::empty());
            if s.len() > CARRY_CAP {
                let base = s.len() - 3;
                let c = s.skip(base);
                assert(post_carry(s) == c);
                assert forall|m: int| 0 <= m < base implies !is_start_at(u, m) by {
                    lemma_start_extend(s, t, m);
                }
                lemma_scan_no_starts(u, 0, base, None);
                lemma_scan_correspond(s, t, base, base, None);
                assert(scan_units(u, base, None) == scan_units(c + t, 0, None));
                assert(Seq::<UnitModel>::empty() + units_of(c + t) =~= units_of(c + t));
            } else {
                assert(post_carry(s) == s);
                assert(Seq::<UnitModel>::empty() + units_of(s + t) =~= units_of(s + t));
            }
        },
    }
}


/// A carry left behind by a feed never contains a complete unit: it runs
/// from the last marker (or contains none), so the next feed re-emits
/// nothing.
pub proof fn lemma_post_carry_no_units(x: Seq<u8>)
    ensures
        units_of(post_carry(x)) == Seq::<UnitModel>::empty(),
{
    lemma_scan_last_char(x, 0, None);
    match last_start(x) {
        Some(p) => {
            let c = x.skip(p);
            assert(c + Seq::<u8>::empty() =~= c);
            assert(x + Seq::<u8>::empty() =~= x);
            assert forall|q: int| 1 <= q < c.len() implies !is_start_at(c, q) by {
                lemma_start_correspond(x, Seq::empty(), p, q);
            }
            lemma_start_correspond(x, Seq::empty(), p, 0);
            assert(is_start_at(c, 0));
            assert(scan_units(c, 0, None) == scan_units(c, 1, Some(0)));
            lemma_scan_no_starts(c, 1, c.len() as int, Some(0));
        },
        None => {
            if x.len() > CARRY_CAP {
                let base = x.len() - 3;
                let c = x.skip(base);
                assert(c + Seq::<u8>::empty() =~= c);
                assert(x + Seq::<u8>::empty() =~= x);
                assert forall|q: int| 0 <= q < c.len() implies !is_start_at(c, q) by {
                    lemma_start_correspond(x, Seq::empty(), base, q);
                }
                lemma_scan_no_starts(c, 0, c.len() as int, None);
            } else {
                lemma_scan_no_starts(x, 0, x.len() as int, None);
            }
        },
    }
}

/// Every unit a parser with carry `c` emits over a whole list of chunks,
/// fed one at a time.
pub open spec fn emitted_from(c: Seq<u8>, chunks: Seq<Seq<u8>>) -> Seq<UnitModel>
    decreases chunks.len(),
{
    if chunks.len() == 0 {
        Seq::empty()
    } else {
        units_of(c + chunks[0]) + emitted_from(post_carry(c + chunks[0]), chunks.drop_first())
    }
}

/// Parser restartability: feeding a byte stream split into any non-empty
/// list of chunks emits exactly the units of the concatenated stream fed
/// in one call.  Starting from a fresh parser, `c` is empty, and the
/// emitted units depend on the stream alone, not on how it was split.
pub proof fn lemma_parser_restartable(c: Seq<u8>, chunks: Seq<Seq<u8>>)
    requires
        chunks.len() > 0,
    ensures
        emitted_from(c, chunks) == units_of(c + chunks.flatten()),
    decreases chunks.len(),
{
    let rest = chunks.drop_first();
    assert(chunks.flatten() == chunks[0] + rest.flatten());
    if chunks.len() == 1 {
        assert(rest.len() == 0);
        assert(rest.flatten() == Seq::<u8>::empty());
        assert(chunks.flatten() =~= chunks[0]);
        assert(emitted_from(post_carry(c + chunks[0]), rest) == Seq::<UnitModel>::empty());
        assert(units_of(c + chunks[0]) + Seq::<UnitModel>::empty() =~= units_of(c + chunks[0]));
    } else {
        lemma_parser_restartable(post_carry(c + chunks[0]), rest);
        lemma_feed_composes(c + chunks[0], rest.flatten());
        assert((c + chunks[0]) + rest.flatten() =~= c + chunks.flatten());
    }
}

} // verus!
