//! Position mapping: [`StepMap`] describes how one step moved positions,
//! [`Mapping`] composes a sequence of them, and [`MapResult`] reports where
//! a position went and whether the content around it was deleted.

use vstd::prelude::*;

verus! {

/// Flag: the content on the side the position associates with was deleted.
pub const DEL_SIDE: u8 = 8;
/// Flag: the content directly before the position was deleted.
pub const DEL_BEFORE: u8 = 1;
/// Flag: the content directly after the position was deleted.
pub const DEL_AFTER: u8 = 2;
/// Flag: the position lay strictly inside a replaced range.
pub const DEL_ACROSS: u8 = 4;

/// The outcome of mapping a position: where it went, which of the content
/// around it was deleted, and (inside a replaced range) how to recover its
/// offset through a mirrored inverse.
#[derive(Debug, Clone, Copy, PartialEq, Eq)]
pub struct MapResult {
    /// The mapped position.
    pub pos: usize,
    pub(crate) del_info: u8,
    pub(crate) recover: Option<(usize, usize)>,
}

/// The value of a mapping: position, deletion flags, recovery data.
pub type MapV = (int, u8, Option<(usize, usize)>);

impl MapResult {
    /// The mapped position.
    pub open(crate) spec fn spec_pos(self) -> usize {
        self.pos
    }

    /// The deletion flags.
    pub open(crate) spec fn spec_del(self) -> u8 {
        self.del_info
    }

    /// The recovery data (range index, offset into the range).
    pub open(crate) spec fn spec_recover(self) -> Option<(usize, usize)> {
        self.recover
    }

    /// Whether the content on the side this position associates with was
    /// deleted.
    pub fn deleted(&self) -> (r: bool)
        ensures
            r == (self.spec_del() & DEL_SIDE > 0),
    {
        self.del_info & DEL_SIDE > 0
    }

    /// Whether the content directly before the position was deleted.
    pub fn deleted_before(&self) -> (r: bool)
        ensures
            r == (self.spec_del() & (DEL_BEFORE | DEL_ACROSS) > 0),
    {
        self.del_info & (DEL_BEFORE | DEL_ACROSS) > 0
    }

    /// Whether the content directly after the position was deleted.
    pub fn deleted_after(&self) -> (r: bool)
        ensures
            r == (self.spec_del() & (DEL_AFTER | DEL_ACROSS) > 0),
    {
        self.del_info & (DEL_AFTER | DEL_ACROSS) > 0
    }

    /// Whether the position lay strictly inside a replaced range.
    pub fn deleted_across(&self) -> (r: bool)
        ensures
            r == (self.spec_del() & DEL_ACROSS > 0),
    {
        self.del_info & DEL_ACROSS > 0
    }
}

/// Map `pos` through the ranges of a step map from range `i` on, with the
/// position shift `diff` accumulated by the ranges before it.
pub open spec fn map_from(r: Seq<usize>, inverted: bool, i: int, diff: int, pos: int, assoc: i32) -> MapV
    decreases r.len() - i,
{
    if i < 0 || i + 2 >= r.len() {
        (pos + diff, 0, None)
    } else {
        let start = r[i] - (if inverted { diff } else { 0 });
        if start > pos {
            (pos + diff, 0, None)
        } else {
            let old_size: int = if inverted { r[i + 2] as int } else { r[i + 1] as int };
            let new_size: int = if inverted { r[i + 1] as int } else { r[i + 2] as int };
            let end = start + old_size;
            if pos <= end {
                let side: int = if old_size == 0 {
                    assoc as int
                } else if pos == start {
                    -1
                } else if pos == end {
                    1
                } else {
                    assoc as int
                };
                let result = start + diff + (if side < 0 { 0 } else { new_size });
                let edge = if assoc < 0 { start } else { end };
                let recover = if pos == edge { None } else { Some(((i / 3) as usize, (pos - start) as usize)) };
                let del0: u8 = if pos == start { DEL_AFTER } else if pos == end { DEL_BEFORE } else { DEL_ACROSS };
                let on_edge = if assoc < 0 { pos != start } else { pos != end };
                (result, if on_edge { del0 | DEL_SIDE } else { del0 }, recover)
            } else {
                map_from(r, inverted, i + 3, diff + new_size - old_size, pos, assoc)
            }
        }
    }
}

/// Room enough in an `i128` for `k` accumulated range sizes and a few more.
proof fn lemma_room(k: int, m: int)
    requires
        0 <= m <= 0xFFFF_FFFF_FFFF_FFFF,
        0 <= 3 * k <= m + 3,
    ensures
        k * m + 4 * m < 0x7FFF_FFFF_FFFF_FFFF_FFFF_FFFF_FFFF_FFFF,
{
    assert(3 * (k * m) <= (m + 3) * m) by (nonlinear_arith)
        requires
            0 <= m,
            3 * k <= m + 3,
            0 <= k,
    ;
    assert((m + 3) * m <= 0x1_0000_0000_0000_0002 * 0xFFFF_FFFF_FFFF_FFFF) by (nonlinear_arith)
        requires
            0 <= m <= 0xFFFF_FFFF_FFFF_FFFF,
    ;
}

proof fn lemma_mul_mono(a: int, b: int, m: int)
    requires
        0 <= a <= b,
        0 <= m,
    ensures
        a * m <= b * m,
{
    assert(a * m <= b * m) by (nonlinear_arith)
        requires
            0 <= a <= b,
            0 <= m,
    ;
}

/// A map of the position changes made by one step: a list of
/// `(start, old_size, new_size)` ranges, read backwards when inverted.
#[derive(Debug, PartialEq, Eq)]
pub struct StepMap {
    pub(crate) ranges: Vec<usize>,
    pub(crate) inverted: bool,
}

impl StepMap {
    #[verifier::type_invariant]
    closed spec fn inv(self) -> bool {
        self.ranges@.len() % 3 == 0
    }

    /// The flat list of range triples.
    pub open(crate) spec fn spec_ranges(self) -> Seq<usize> {
        self.ranges@
    }

    /// Whether the map is read backwards.
    pub open(crate) spec fn spec_inverted(self) -> bool {
        self.inverted
    }

    /// Where `pos` goes, associating to the side of `assoc`.
    pub open(crate) spec fn spec_map(self, pos: usize, assoc: i32) -> MapV {
        map_from(self.ranges@, self.inverted, 0, 0, pos as int, assoc)
    }

    /// A map from `(start, old_size, new_size)` triples, in position order.
    pub fn new(ranges: Vec<usize>) -> (r: StepMap)
        requires
            ranges@.len() % 3 == 0,
        ensures
            r.spec_ranges() == ranges@,
            !r.spec_inverted(),
    {
        StepMap { ranges, inverted: false }
    }

    /// The map that moves nothing.
    pub fn identity() -> (r: StepMap)
        ensures
            r.spec_ranges().len() == 0,
            !r.spec_inverted(),
    {
        StepMap { ranges: Vec::new(), inverted: false }
    }

    /// The map that undoes this one.
    pub fn invert(&self) -> (r: StepMap)
        ensures
            r.spec_ranges() == self.spec_ranges(),
            r.spec_inverted() == !self.spec_inverted(),
    {
        proof {
            use_type_invariant(self);
        }
        StepMap { ranges: self.ranges.clone(), inverted: !self.inverted }
    }

    /// The number of ranges.
    pub(crate) fn range_count(&self) -> (r: usize)
        ensures
            r * 3 == self.spec_ranges().len(),
    {
        proof {
            use_type_invariant(self);
        }
        self.ranges.len() / 3
    }

    /// The position, in the mapped document, of offset `offset` into range
    /// `index` — used to bring a position back through a mirrored inverse.
    pub(crate) fn recover(&self, index: usize, offset: usize) -> (r: usize)
        requires
            index * 3 < self.spec_ranges().len(),
        ensures
            r == (self.spec_ranges()[index * 3] + (if self.spec_inverted() { 0 } else { shift_before(self.spec_ranges(), index as int) })
                + offset) as usize,
    {
        proof {
            use_type_invariant(self);
        }
        let mut diff: i128 = 0;
        let n = self.ranges.len();
        if !self.inverted {
            let mut i: usize = 0;
            while i < index
                invariant
                    i <= index,
                    n == self.ranges@.len(),
                    index * 3 < n,
                    diff == shift_before(self.ranges@, i as int),
                    -(i as int) * 0xFFFF_FFFF_FFFF_FFFF <= diff <= (i as int) * 0xFFFF_FFFF_FFFF_FFFF,
                decreases index - i,
            {
                proof {
                    lemma_room(i as int, 0xFFFF_FFFF_FFFF_FFFF);
                    assert((i as int) * 0xFFFF_FFFF_FFFF_FFFF + 0xFFFF_FFFF_FFFF_FFFF == (i as int + 1) * 0xFFFF_FFFF_FFFF_FFFF);
                }
                diff = diff + self.ranges[i * 3 + 2] as i128 - self.ranges[i * 3 + 1] as i128;
                i = i + 1;
            }
        }
        proof {
            if !self.inverted {
                lemma_room(index as int, 0xFFFF_FFFF_FFFF_FFFF);
            }
        }
        (self.ranges[index * 3] as i128 + diff + offset as i128) as usize
    }

    /// Where `pos` goes.
    pub fn map(&self, pos: usize, assoc: i32) -> (r: usize)
        ensures
            r == self.spec_map(pos, assoc).0 as usize,
    {
        self.map_inner(pos, assoc).pos
    }

    /// Where `pos` goes, with what was deleted around it.
    pub fn map_result(&self, pos: usize, assoc: i32) -> (r: MapResult)
        ensures
            r.spec_pos() == self.spec_map(pos, assoc).0 as usize,
            r.spec_del() == self.spec_map(pos, assoc).1,
            r.spec_recover() == self.spec_map(pos, assoc).2,
    {
        self.map_inner(pos, assoc)
    }

    fn map_inner(&self, pos: usize, assoc: i32) -> (r: MapResult)
        ensures
            r.spec_pos() == self.spec_map(pos, assoc).0 as usize,
            r.spec_del() == self.spec_map(pos, assoc).1,
            r.spec_recover() == self.spec_map(pos, assoc).2,
    {
        proof {
            use_type_invariant(self);
        }
        let ghost rs = self.ranges@;
        let n = self.ranges.len();
        let mut diff: i128 = 0;
        let mut i: usize = 0;
        while i < n
            invariant
                n == rs.len(),
                rs == self.ranges@,
                n % 3 == 0,
                i % 3 == 0,
                i <= n,
                map_from(rs, self.inverted, 0, 0, pos as int, assoc) == map_from(rs, self.inverted, i as int, diff as int, pos as int, assoc),
                -((i / 3) as int) * 0xFFFF_FFFF_FFFF_FFFF <= diff <= ((i / 3) as int) * 0xFFFF_FFFF_FFFF_FFFF,
            ensures
                map_from(rs, self.inverted, 0, 0, pos as int, assoc) == (pos + diff, 0u8, None::<(usize, usize)>),
                -((n / 3) as int) * 0xFFFF_FFFF_FFFF_FFFF <= diff <= ((n / 3) as int) * 0xFFFF_FFFF_FFFF_FFFF,
            decreases n - i,
        {
            proof {
                lemma_room((i / 3) as int, 0xFFFF_FFFF_FFFF_FFFF);
                assert(((i / 3) as int) * 0xFFFF_FFFF_FFFF_FFFF + 0xFFFF_FFFF_FFFF_FFFF == ((i / 3) as int + 1) * 0xFFFF_FFFF_FFFF_FFFF);
                assert((i + 3) / 3 == i / 3 + 1);
            }
            let start: i128 = self.ranges[i] as i128 - if self.inverted { diff } else { 0 };
            if start > pos as i128 {
                proof {
                    assert((i / 3) as int <= (n / 3) as int);
                    lemma_mul_mono((i / 3) as int, (n / 3) as int, 0xFFFF_FFFF_FFFF_FFFF);
                }
                break;
            }
            let old_size = self.ranges[i + if self.inverted { 2 } else { 1 }];
            let new_size = self.ranges[i + if self.inverted { 1 } else { 2 }];
            let end: i128 = start + old_size as i128;
            if pos as i128 <= end {
                let side: i32 = if old_size == 0 {
                    assoc
                } else if pos as i128 == start {
                    -1
                } else if pos as i128 == end {
                    1
                } else {
                    assoc
                };
                let result: i128 = start + diff + if side < 0 { 0 } else { new_size as i128 };
                let edge: i128 = if assoc < 0 { start } else { end };
                let recover = if pos as i128 == edge { None } else { Some((i / 3, (pos as i128 - start) as usize)) };
                let mut del_info: u8 = if pos as i128 == start {
                    DEL_AFTER
                } else if pos as i128 == end {
                    DEL_BEFORE
                } else {
                    DEL_ACROSS
                };
                let on_edge = if assoc < 0 { pos as i128 != start } else { pos as i128 != end };
                if on_edge {
                    del_info = del_info | DEL_SIDE;
                }
                return MapResult { pos: result as usize, del_info, recover };
            }
            diff = diff + new_size as i128 - old_size as i128;
            i = i + 3;
        }
        proof {
            lemma_room((n / 3) as int, 0xFFFF_FFFF_FFFF_FFFF);
        }
        MapResult { pos: (pos as i128 + diff) as usize, del_info: 0, recover: None }
    }
}

impl Clone for StepMap {
    fn clone(&self) -> (r: Self)
        ensures
            r.spec_ranges() == self.spec_ranges(),
            r.spec_inverted() == self.spec_inverted(),
    {
        proof {
            use_type_invariant(self);
        }
        StepMap { ranges: self.ranges.clone(), inverted: self.inverted }
    }
}

/// The total shift made by the first `k` ranges of a map (read forwards).
pub open spec fn shift_before(r: Seq<usize>, k: int) -> int
    decreases k,
{
    if k <= 0 {
        0
    } else {
        shift_before(r, k - 1) + r[3 * (k - 1) + 2] - r[3 * (k - 1) + 1]
    }
}


/// The other end of the mirror pair that `n` belongs to, scanning the pairs
/// from index `i` on.
pub open spec fn mirror_from(m: Seq<usize>, n: usize, i: int) -> Option<usize>
    decreases m.len() - i,
{
    if i < 0 || i + 1 >= m.len() {
        None
    } else if m[i] == n {
        Some(m[i + 1])
    } else if m[i + 1] == n {
        Some(m[i])
    } else {
        mirror_from(m, n, i + 2)
    }
}

/// Map `pos` through `maps[i..]` without recovery.
pub open spec fn map_through(maps: Seq<StepMap>, i: int, pos: usize, assoc: i32) -> usize
    decreases maps.len() - i,
{
    if i < 0 || i >= maps.len() {
        pos
    } else {
        map_through(maps, i + 1, maps[i].spec_map(pos, assoc).0 as usize, assoc)
    }
}

/// The position recovered by map `m` for range `index` and `offset`.
pub open spec fn recovered(m: StepMap, index: usize, offset: usize) -> usize {
    (m.spec_ranges()[index * 3] + (if m.spec_inverted() { 0 } else { shift_before(m.spec_ranges(), index as int) }) + offset) as usize
}

/// Map `pos` through `maps[i..]`, jumping over a step and its mirrored
/// inverse when the position can be recovered; `del` collects the
/// deletion flags met so far.
pub open spec fn map_result_from(maps: Seq<StepMap>, mirror: Seq<usize>, i: int, pos: usize, del: u8, assoc: i32) -> (usize, u8)
    decreases maps.len() - i,
{
    if i < 0 || i >= maps.len() {
        (pos, del)
    } else {
        let res = maps[i].spec_map(pos, assoc);
        match (res.2, mirror_from(mirror, i as usize, 0)) {
            (Some(rec), Some(corr)) if i < corr < maps.len() && rec.0 * 3 < maps[corr as int].spec_ranges().len() =>
                map_result_from(maps, mirror, corr + 1, recovered(maps[corr as int], rec.0, rec.1), del, assoc),
            _ => map_result_from(maps, mirror, i + 1, res.0 as usize, del | res.1, assoc),
        }
    }
}

/// A sequence of step maps, with the pairs of maps that undo each other
/// (a step and its inverse) recorded as mirrors.
#[derive(Debug)]
pub struct Mapping {
    pub(crate) maps: Vec<StepMap>,
    pub(crate) mirror: Vec<usize>,
}

impl Mapping {
    /// The maps, in order.
    pub open(crate) spec fn spec_maps(self) -> Seq<StepMap> {
        self.maps@
    }

    /// The mirror pairs, flattened.
    pub open(crate) spec fn spec_mirror(self) -> Seq<usize> {
        self.mirror@
    }

    /// An empty mapping.
    pub fn new() -> (r: Mapping)
        ensures
            r.spec_maps().len() == 0,
            r.spec_mirror().len() == 0,
    {
        Mapping { maps: Vec::new(), mirror: Vec::new() }
    }

    /// The number of maps.
    pub fn len(&self) -> (r: usize)
        ensures
            r == self.spec_maps().len(),
    {
        self.maps.len()
    }

    /// Whether there are no maps.
    pub fn is_empty(&self) -> (r: bool)
        ensures
            r == (self.spec_maps().len() == 0),
    {
        self.maps.len() == 0
    }

    /// The maps, in order.
    pub fn maps(&self) -> (r: &[StepMap])
        ensures
            r@ == self.spec_maps(),
    {
        self.maps.as_slice()
    }

    /// Add a map at the end.
    pub fn append_map(&mut self, map: StepMap)
        ensures
            final(self).spec_maps() == old(self).spec_maps().push(map),
            final(self).spec_mirror() == old(self).spec_mirror(),
    {
        self.maps.push(map);
    }

    /// Add a map at the end, recorded as the mirror of map `mirrors`.
    pub fn append_map_mirrored(&mut self, map: StepMap, mirrors: usize)
        ensures
            final(self).spec_maps() == old(self).spec_maps().push(map),
            final(self).spec_mirror() == old(self).spec_mirror().push(mirrors).push(old(self).spec_maps().len() as usize),
    {
        self.maps.push(map);
        let n = self.maps.len() - 1;
        self.mirror.push(mirrors);
        self.mirror.push(n);
    }

    /// The index mirrored with map `n`, if any.
    fn get_mirror(&self, n: usize) -> (r: Option<usize>)
        ensures
            r == mirror_from(self.spec_mirror(), n, 0),
    {
        let mut i: usize = 0;
        while i < self.mirror.len() && i + 1 < self.mirror.len()
            invariant
                i <= self.mirror@.len(),
                mirror_from(self.mirror@, n, 0) == mirror_from(self.mirror@, n, i as int),
            decreases self.mirror.len() - i,
        {
            if self.mirror[i] == n {
                return Some(self.mirror[i + 1]);
            }
            if self.mirror[i + 1] == n {
                return Some(self.mirror[i]);
            }
            i = i + 2;
        }
        None
    }

    /// Map `pos` through every map in turn.
    pub fn map(&self, pos: usize, assoc: i32) -> (r: usize)
        ensures
            r == map_through(self.spec_maps(), 0, pos, assoc),
    {
        let mut p = pos;
        let mut i: usize = 0;
        while i < self.maps.len()
            invariant
                i <= self.maps@.len(),
                map_through(self.maps@, 0, pos, assoc) == map_through(self.maps@, i as int, p, assoc),
            decreases self.maps.len() - i,
        {
            p = self.maps[i].map(p, assoc);
            i = i + 1;
        }
        p
    }

    /// Map `pos` through every map in turn, recovering positions through
    /// mirrored inverses, and collect the deletion flags.
    pub fn map_result(&self, pos: usize, assoc: i32) -> (r: MapResult)
        ensures
            (r.spec_pos(), r.spec_del()) == map_result_from(self.spec_maps(), self.spec_mirror(), 0, pos, 0, assoc),
            r.spec_recover() is None,
    {
        let mut del: u8 = 0;
        let mut p = pos;
        let mut i: usize = 0;
        while i < self.maps.len()
            invariant
                i <= self.maps@.len(),
                map_result_from(self.maps@, self.mirror@, 0, pos, 0, assoc)
                    == map_result_from(self.maps@, self.mirror@, i as int, p, del, assoc),
            decreases self.maps.len() - i,
        {
            let result = self.maps[i].map_result(p, assoc);
            let mirror = self.get_mirror(i);
            match (result.recover, mirror) {
                (Some(rec), Some(corr)) => {
                    if i < corr && corr < self.maps.len() && rec.0 < self.maps[corr].range_count() {
                        p = self.maps[corr].recover(rec.0, rec.1);
                        i = corr + 1;
                        continue;
                    }
                },
                _ => {},
            }
            del = del | result.del_info;
            p = result.pos;
            i = i + 1;
        }
        MapResult { pos: p, del_info: del, recover: None }
    }
}

impl Clone for Mapping {
    fn clone(&self) -> (r: Self)
        ensures
            r.spec_maps().len() == self.spec_maps().len(),
            r.spec_mirror() == self.spec_mirror(),
    {
        let mut maps: Vec<StepMap> = Vec::new();
        let mut i: usize = 0;
        while i < self.maps.len()
            invariant
                i <= self.maps@.len(),
                maps@.len() == i,
            decreases self.maps.len() - i,
        {
            maps.push(self.maps[i].clone());
            i = i + 1;
        }
        Mapping { maps, mirror: self.mirror.clone() }
    }
}

impl Default for Mapping {
    fn default() -> (r: Self)
        ensures
            r.spec_maps().len() == 0,
            r.spec_mirror().len() == 0,
    {
        Mapping::new()
    }
}

// ---- laws -------------------------------------------------------------------

/// The ranges of a step map come in position order and do not overlap:
/// each one starts after the replaced content of the one before it.
pub open spec fn ranges_ordered(r: Seq<usize>) -> bool {
    &&& r.len() % 3 == 0
    &&& forall|k: int| 0 <= k && 3 * k + 5 < r.len() ==> #[trigger] r[3 * k] + r[3 * k + 1] <= r[3 * k + 3]
}

/// Position `pos` lies outside every replaced range (not at its edges
/// either).
pub open spec fn outside_ranges(r: Seq<usize>, pos: int) -> bool {
    forall|k: int| 0 <= k && 3 * k + 2 < r.len() ==> pos < #[trigger] r[3 * k] || pos > r[3 * k] + r[3 * k + 1]
}

/// Range `l` exists and starts at or before `pos`.
pub open spec fn starts_by(r: Seq<usize>, l: int, pos: int) -> bool {
    3 * l + 2 < r.len() && r[3 * l] <= pos
}

/// The index of the first range from range `k` on that starts after `pos`
/// (or the number of ranges).
pub open spec fn first_after(r: Seq<usize>, k: int, pos: int) -> int
    decreases r.len() - 3 * k,
{
    if k < 0 || 3 * k + 2 >= r.len() || r[3 * k] > pos {
        k
    } else {
        first_after(r, k + 1, pos)
    }
}

proof fn lemma_first_after(r: Seq<usize>, k: int, pos: int)
    requires
        0 <= k,
    ensures
        k <= first_after(r, k, pos),
        forall|l: int| k <= l < first_after(r, k, pos) ==> starts_by(r, l, pos),
        3 * first_after(r, k, pos) + 2 >= r.len() || r[3 * first_after(r, k, pos)] > pos,
    decreases r.len() - 3 * k,
{
    if !(3 * k + 2 >= r.len() || r[3 * k] > pos) {
        lemma_first_after(r, k + 1, pos);
        assert forall|l: int| k <= l < first_after(r, k, pos) implies starts_by(r, l, pos) by {
            if l > k {
                assert(k + 1 <= l < first_after(r, k + 1, pos));
            }
        }
    }
}

/// Mapping forward from range `k`, a position outside every range moves by
/// the shift of the ranges before the first one that starts after it.
proof fn lemma_forward(r: Seq<usize>, k: int, pos: int, assoc: i32)
    requires
        0 <= k,
        r.len() % 3 == 0,
        outside_ranges(r, pos),
    ensures
        map_from(r, false, 3 * k, shift_before(r, k), pos, assoc).0 == pos + shift_before(r, first_after(r, k, pos)),
    decreases r.len() - 3 * k,
{
    if !(3 * k + 2 >= r.len() || r[3 * k] > pos) {
        assert(pos < r[3 * k] || pos > r[3 * k] + r[3 * k + 1]);
        assert(shift_before(r, k + 1) == shift_before(r, k) + r[3 * k + 2] - r[3 * k + 1]);
        lemma_forward(r, k + 1, pos, assoc);
        assert(3 * k + 3 == 3 * (k + 1));
    }
}

/// Before the first range that starts after `pos`, the content replaced by
/// range `k` and the ranges up to it fit below `pos`.
proof fn lemma_room_before(r: Seq<usize>, k: int, j: int, pos: int)
    requires
        ranges_ordered(r),
        outside_ranges(r, pos),
        0 <= k < j,
        forall|l: int| 0 <= l < j ==> #[trigger] starts_by(r, l, pos),
    ensures
        pos - (r[3 * k] + r[3 * k + 1]) >= shift_before(r, k + 1) - shift_before(r, j) + 1,
    decreases j - k,
{
    assert(starts_by(r, k, pos));
    assert(pos < r[3 * k] || pos > r[3 * k] + r[3 * k + 1]);
    if k < j - 1 {
        lemma_room_before(r, k + 1, j, pos);
        assert(starts_by(r, k + 1, pos));
        assert(3 * (k + 1) == 3 * k + 3);
        assert(r[3 * k] + r[3 * k + 1] <= r[3 * k + 3]);
        assert(shift_before(r, k + 2) == shift_before(r, k + 1) + r[3 * (k + 1) + 2] - r[3 * (k + 1) + 1]);
    }
}

/// Mapping back from range `k` through the inverted ranges, the mapped
/// position returns to `pos`.
proof fn lemma_backward(r: Seq<usize>, k: int, j: int, pos: int, assoc: i32)
    requires
        ranges_ordered(r),
        outside_ranges(r, pos),
        0 <= k <= j,
        j == first_after(r, 0, pos),
        forall|l: int| 0 <= l < j ==> #[trigger] starts_by(r, l, pos),
        3 * j + 2 >= r.len() || r[3 * j] > pos,
    ensures
        map_from(r, true, 3 * k, -shift_before(r, k), pos + shift_before(r, j), assoc).0 == pos,
    decreases j - k,
{
    let q = pos + shift_before(r, j);
    if k < j {
        lemma_room_before(r, k, j, pos);
        assert(starts_by(r, k, pos));
        assert(shift_before(r, k + 1) == shift_before(r, k) + r[3 * k + 2] - r[3 * k + 1]);
        lemma_backward(r, k + 1, j, pos, assoc);
        assert(3 * k + 3 == 3 * (k + 1));
    }
}

/// Mapping a position that lies outside every replaced range of a step map
/// and mapping the result back through the inverted map gives the position
/// back, whatever the associations.
pub proof fn law_map_round_trip(r: Seq<usize>, pos: int, assoc: i32, back: i32)
    requires
        ranges_ordered(r),
        outside_ranges(r, pos),
    ensures
        map_from(r, true, 0, 0, map_from(r, false, 0, 0, pos, assoc).0, back).0 == pos,
{
    lemma_forward(r, 0, pos, assoc);
    lemma_first_after(r, 0, pos);
    let j = first_after(r, 0, pos);
    lemma_backward(r, 0, j, pos, back);
    assert(shift_before(r, 0) == 0);
}

/// A position mapped forward past ranges that start at or before it lands
/// after the first range's new content, so never below zero.
proof fn lemma_forward_nonneg(r: Seq<usize>, pos: int)
    requires
        ranges_ordered(r),
        outside_ranges(r, pos),
        0 <= pos,
    ensures
        pos + shift_before(r, first_after(r, 0, pos)) >= 0,
{
    lemma_first_after(r, 0, pos);
    let j = first_after(r, 0, pos);
    if j > 0 {
        lemma_room_before(r, 0, j, pos);
        assert(shift_before(r, 0) == 0);
        assert(shift_before(r, 1) == r[2] - r[1]);
    }
}

/// A step map and its inverse: mapping a position that lies outside every
/// replaced range forward and then back through the inverted map gives the
/// position back, whatever the associations.
pub proof fn law_step_map_round_trip(m: StepMap, inv: StepMap, pos: usize, assoc: i32, back: i32)
    requires
        !m.spec_inverted(),
        inv.spec_inverted(),
        inv.spec_ranges() == m.spec_ranges(),
        ranges_ordered(m.spec_ranges()),
        outside_ranges(m.spec_ranges(), pos as int),
        m.spec_map(pos, assoc).0 <= usize::MAX,
    ensures
        0 <= m.spec_map(pos, assoc).0,
        inv.spec_map(m.spec_map(pos, assoc).0 as usize, back).0 == pos,
{
    let r = m.spec_ranges();
    lemma_forward(r, 0, pos as int, assoc);
    lemma_forward_nonneg(r, pos as int);
    assert(shift_before(r, 0) == 0);
    law_map_round_trip(r, pos as int, assoc, back);
}

/// Where forward mapping reports a recoverable position, it names an
/// existing range and the position's offset from that range's start.
proof fn lemma_recover_offset(r: Seq<usize>, k: int, diff: int, pos: int, assoc: i32)
    requires
        0 <= k,
        r.len() <= usize::MAX,
        0 <= pos,
    ensures
        map_from(r, false, 3 * k, diff, pos, assoc).2 matches Some(rec) ==> 3 * rec.0 + 2 < r.len()
            && rec.1 == pos - r[3 * rec.0],
    decreases r.len() - 3 * k,
{
    let i = 3 * k;
    if !(i + 2 >= r.len() || r[i] > pos) {
        let end = r[i] + r[i + 1];
        if pos > end {
            lemma_recover_offset(r, k + 1, diff + r[i + 2] - r[i + 1], pos, assoc);
            assert(3 * k + 3 == 3 * (k + 1));
        } else {
            assert(i / 3 == k);
        }
    }
}

/// A step map followed by its mirrored inverse brings a position back: a
/// position the step map can recover (it lies in a replaced range, not
/// pushed out of it by its association) is recovered exactly, and a
/// position outside every range maps forward and back to itself.
pub proof fn law_mirror_round_trip(mapping: Mapping, m: StepMap, inv: StepMap, pos: usize, assoc: i32)
    requires
        mapping.spec_maps() == seq![m, inv],
        mapping.spec_mirror() == seq![0usize, 1usize],
        !m.spec_inverted(),
        inv.spec_inverted(),
        inv.spec_ranges() == m.spec_ranges(),
        m.spec_ranges().len() <= usize::MAX,
        m.spec_map(pos, assoc).2 is Some
            || (ranges_ordered(m.spec_ranges()) && outside_ranges(m.spec_ranges(), pos as int)
                && m.spec_map(pos, assoc).0 <= usize::MAX),
    ensures
        map_result_from(mapping.spec_maps(), mapping.spec_mirror(), 0, pos, 0, assoc).0 == pos,
{
    let maps = mapping.spec_maps();
    let mirror = mapping.spec_mirror();
    let r = m.spec_ranges();
    assert(maps[0] == m && maps[1] == inv);
    assert(mirror_from(mirror, 0, 0) == Some(1usize));
    assert(mirror_from(mirror, 1, 0) == Some(0usize));
    let res = m.spec_map(pos, assoc);
    lemma_recover_offset(r, 0, 0, pos as int, assoc);
    if res.2 is Some {
        let rec = res.2->0;
        assert(recovered(inv, rec.0, rec.1) == pos);
        assert(map_result_from(maps, mirror, 2, pos, 0, assoc) == (pos, 0u8));
    } else {
        law_step_map_round_trip(m, inv, pos, assoc, assoc);
        let q = res.0 as usize;
        let back = inv.spec_map(q, assoc);
        assert(map_result_from(maps, mirror, 2, back.0 as usize, 0u8 | res.1 | back.1, assoc).0 == back.0 as usize);
        assert(map_result_from(maps, mirror, 1, q, 0u8 | res.1, assoc).0 == back.0 as usize);
    }
}

/// The map that moves nothing leaves every position where it is, deleting
/// nothing around it.
pub proof fn law_identity_map(pos: int, inverted: bool, assoc: i32)
    ensures
        map_from(Seq::<usize>::empty(), inverted, 0, 0, pos, assoc) == (pos, 0u8, None::<(usize, usize)>),
{
}

} // verus!
