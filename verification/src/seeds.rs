//! Seed aggregation: tabular coarse-filter hits become per-profile seed
//! lists. A hit row reads `profile_key target qstart qend tstart tend ...`;
//! further trailing fields are ignored. When the coarse filter ran against a
//! differently keyed representation of the profiles, a key-to-name table and
//! a coordinate map per profile translate the profile span, and a translated
//! start boundary is clamped to `1`.

use vstd::prelude::*;

use crate::bytes::{
    all_digits, bytes_eq, copy_bytes, dec_value, parse_u64, tokenize, tokens_of,
};
use crate::coord::CoordinateMap;

verus! {

/// A coordinate hint: where a full alignment of a profile against a target
/// likely lies. All bounds are 1-based and inclusive.
#[derive(Debug)]
pub struct Seed {
    pub target_name: Vec<u8>,
    pub target_start: usize,
    pub target_end: usize,
    pub profile_start: usize,
    pub profile_end: usize,
}

pub ghost struct SeedView {
    pub target_name: Seq<u8>,
    pub target_start: int,
    pub target_end: int,
    pub profile_start: int,
    pub profile_end: int,
}

impl View for Seed {
    type V = SeedView;

    open spec fn view(&self) -> SeedView {
        SeedView {
            target_name: self.target_name@,
            target_start: self.target_start as int,
            target_end: self.target_end as int,
            profile_start: self.profile_start as int,
            profile_end: self.profile_end as int,
        }
    }
}

pub open spec fn seed_views(s: Seq<Seed>) -> Seq<SeedView> {
    s.map_values(|x: Seed| x@)
}

/// One raw coarse-filter hit, as parsed from its row.
#[derive(Debug)]
pub struct RawHit {
    pub profile_key: Vec<u8>,
    pub target_name: Vec<u8>,
    pub profile_start: usize,
    pub profile_end: usize,
    pub target_start: usize,
    pub target_end: usize,
}

pub ghost struct RawHitView {
    pub profile_key: Seq<u8>,
    pub target_name: Seq<u8>,
    pub profile_start: int,
    pub profile_end: int,
    pub target_start: int,
    pub target_end: int,
}

impl View for RawHit {
    type V = RawHitView;

    open spec fn view(&self) -> RawHitView {
        RawHitView {
            profile_key: self.profile_key@,
            target_name: self.target_name@,
            profile_start: self.profile_start as int,
            profile_end: self.profile_end as int,
            target_start: self.target_start as int,
            target_end: self.target_end as int,
        }
    }
}

/// Does the row hold at least the six leading fields, with the four
/// numeric ones unsigned decimals that fit a `usize`?
pub open spec fn hit_line_ok(l: Seq<u8>) -> bool {
    let ts = tokens_of(l);
    &&& ts.len() >= 6
    &&& forall|c: int|
        2 <= c <= 5 ==> (#[trigger] ts[c]).len() > 0 && all_digits(ts[c]) && dec_value(ts[c])
            <= usize::MAX
}

/// The hit a well-formed row describes. Column order: profile key, target
/// name, profile start, profile end, target start, target end.
pub open spec fn hit_of_line(l: Seq<u8>) -> RawHitView {
    let ts = tokens_of(l);
    RawHitView {
        profile_key: ts[0],
        target_name: ts[1],
        profile_start: dec_value(ts[2]),
        profile_end: dec_value(ts[3]),
        target_start: dec_value(ts[4]),
        target_end: dec_value(ts[5]),
    }
}

/// Parse one coarse-filter row. `None` exactly when the row does not hold
/// six leading fields with parseable numbers.
pub fn parse_hit_line(line: &Vec<u8>) -> (r: Option<RawHit>)
    ensures
        (r is Some) <==> hit_line_ok(line@),
        r matches Some(h) ==> h@ == hit_of_line(line@),
{
    let toks = tokenize(line);
    let ghost ts = tokens_of(line@);
    if toks.len() < 6 {
        return None;
    }
    proof {
        assert(forall|c: int| 0 <= c < 6 ==> #[trigger] toks@[c]@ == ts[c]);
    }
    let profile_start = match parse_u64(&toks[2]) {
        Some(v) => {
            if v > usize::MAX as u64 {
                return None;
            }
            v as usize
        },
        None => {
            return None;
        },
    };
    let profile_end = match parse_u64(&toks[3]) {
        Some(v) => {
            if v > usize::MAX as u64 {
                return None;
            }
            v as usize
        },
        None => {
            return None;
        },
    };
    let target_start = match parse_u64(&toks[4]) {
        Some(v) => {
            if v > usize::MAX as u64 {
                return None;
            }
            v as usize
        },
        None => {
            return None;
        },
    };
    let target_end = match parse_u64(&toks[5]) {
        Some(v) => {
            if v > usize::MAX as u64 {
                return None;
            }
            v as usize
        },
        None => {
            return None;
        },
    };
    let profile_key = copy_bytes(&toks[0]);
    let target_name = copy_bytes(&toks[1]);
    Some(
        RawHit {
            profile_key,
            target_name,
            profile_start,
            profile_end,
            target_start,
            target_end,
        },
    )
}

/// Does the table hold an entry whose key reads `k`?
pub open spec fn table_has<V>(t: Seq<(Vec<u8>, V)>, k: Seq<u8>) -> bool {
    exists|i: int| 0 <= i < t.len() && (#[trigger] t[i]).0@ == k
}

/// The index of the entry keyed `k` (unique when the keys are distinct).
pub open spec fn table_index_of<V>(t: Seq<(Vec<u8>, V)>, k: Seq<u8>) -> int {
    choose|i: int| 0 <= i < t.len() && (#[trigger] t[i]).0@ == k
}

/// No two entries share a key.
pub open spec fn table_keys_distinct<V>(t: Seq<(Vec<u8>, V)>) -> bool {
    forall|i: int, j: int| 0 <= i < j < t.len() ==> (#[trigger] t[i]).0@ != (#[trigger] t[j]).0@
}

/// With distinct keys, any entry holding `k` is the entry `table_index_of`
/// names.
pub proof fn lemma_table_index_unique<V>(t: Seq<(Vec<u8>, V)>, k: Seq<u8>, i: int)
    requires
        table_keys_distinct(t),
        0 <= i < t.len(),
        t[i].0@ == k,
    ensures
        table_index_of(t, k) == i,
{
    assert(table_has(t, k));
    let j = table_index_of(t, k);
    if j != i {
        if j < i {
            assert(t[j].0@ != t[i].0@);
        } else {
            assert(t[i].0@ != t[j].0@);
        }
    }
}

/// Per-profile seed lists, keyed by profile name. An association vector
/// with distinct keys; entry order carries no meaning, seed order within a
/// list is append order.
#[derive(Debug)]
pub struct SeedMap {
    pub entries: Vec<(Vec<u8>, Vec<Seed>)>,
}

impl SeedMap {
    pub open spec fn wf(&self) -> bool {
        table_keys_distinct(self.entries@)
    }

    pub open spec fn contains_name(&self, k: Seq<u8>) -> bool {
        table_has(self.entries@, k)
    }

    pub open spec fn seeds_of(&self, k: Seq<u8>) -> Seq<SeedView> {
        seed_views(self.entries@[table_index_of(self.entries@, k)].1@)
    }

    /// The map the entries denote: profile name to its seed list.
    pub open spec fn as_map(&self) -> Map<Seq<u8>, Seq<SeedView>> {
        Map::new(|k: Seq<u8>| self.contains_name(k), |k: Seq<u8>| self.seeds_of(k))
    }

    /// An empty seed map.
    pub fn new() -> (r: SeedMap)
        ensures
            r.wf(),
            r.as_map() == Map::<Seq<u8>, Seq<SeedView>>::empty(),
            r.entries@.len() == 0,
    {
        let r = SeedMap { entries: Vec::new() };
        proof {
            assert(r.as_map() =~= Map::<Seq<u8>, Seq<SeedView>>::empty());
        }
        r
    }

    /// Append a seed to `name`'s list, creating the list on first use.
    pub fn insert_seed(&mut self, name: Vec<u8>, seed: Seed)
        requires
            old(self).wf(),
        ensures
            final(self).wf(),
            final(self).as_map() == old(self).as_map().insert(
                name@,
                (if old(self).contains_name(name@) {
                    old(self).seeds_of(name@)
                } else {
                    Seq::<SeedView>::empty()
                }) + seq![seed@],
            ),
    {
        let ghost old_entries = old(self).entries@;
        let ghost sv = seed@;
        let ghost base = if old(self).contains_name(name@) {
            old(self).seeds_of(name@)
        } else {
            Seq::<SeedView>::empty()
        };
        match find_key(&self.entries, &name) {
            Some(i) => {
                proof {
                    lemma_table_index_unique(old_entries, name@, i as int);
                }
                let pair = self.entries.remove(i);
                let (nm, mut lst) = pair;
                let ghost old_lst = lst@;
                lst.push(seed);
                self.entries.insert(i, (nm, lst));
                proof {
                    let cur = self.entries@;
                    assert(cur.len() == old_entries.len());
                    assert forall|j: int| 0 <= j < cur.len() implies (#[trigger] cur[j]).0@
                        == old_entries[j].0@ && (j != i ==> cur[j] == old_entries[j]) by {
                        if j < i {
                            assert(cur[j] == old_entries.remove(i as int).insert(
                                i as int,
                                (nm, lst),
                            )[j]);
                        }
                    }
                    assert(cur[i as int].0@ == name@);
                    assert(cur[i as int].1@ == old_lst.push(seed));
                    assert(old_lst == old_entries[i as int].1@);
                    assert(seed_views(old_lst.push(seed)) =~= seed_views(old_lst) + seq![sv]);
                    assert(seed_views(cur[i as int].1@) == base + seq![sv]);
                    self.lemma_upsert_existing(old_entries, name@, i as int, sv, base);
                }
            },
            None => {
                let mut lst: Vec<Seed> = Vec::new();
                lst.push(seed);
                let ghost n0 = self.entries@.len() as int;
                self.entries.push((name, lst));
                proof {
                    let cur = self.entries@;
                    assert(forall|j: int|
                        0 <= j < n0 ==> (#[trigger] cur[j]) == old_entries[j]);
                    assert(cur[n0].0@ == name@);
                    assert(cur[n0].1@ == seq![seed]);
                    assert(seed_views(seq![seed]) =~= seq![sv]);
                    self.lemma_upsert_new(old_entries, name@, sv);
                }
            },
        }
    }

    /// Proof that replacing entry `i`'s list with the appended list turns
    /// the denoted map into the inserted one.
    proof fn lemma_upsert_existing(
        &self,
        old_entries: Seq<(Vec<u8>, Vec<Seed>)>,
        name: Seq<u8>,
        i: int,
        sv: SeedView,
        base: Seq<SeedView>,
    )
        requires
            table_keys_distinct(old_entries),
            0 <= i < old_entries.len(),
            old_entries[i].0@ == name,
            base == seed_views(old_entries[table_index_of(old_entries, name)].1@),
            self.entries@.len() == old_entries.len(),
            forall|j: int|
                0 <= j < old_entries.len() ==> (#[trigger] self.entries@[j]).0@
                    == old_entries[j].0@,
            forall|j: int|
                0 <= j < old_entries.len() && j != i ==> (#[trigger] self.entries@[j])
                    == old_entries[j],
            seed_views(self.entries@[i].1@) == base + seq![sv],
        ensures
            self.wf(),
            self.as_map() == Map::new(
                |k: Seq<u8>| table_has(old_entries, k),
                |k: Seq<u8>| seed_views(old_entries[table_index_of(old_entries, k)].1@),
            ).insert(name, base + seq![sv]),
    {
        let cur = self.entries@;
        assert(table_keys_distinct(cur));
        let old_map = Map::new(
            |k: Seq<u8>| table_has(old_entries, k),
            |k: Seq<u8>| seed_views(old_entries[table_index_of(old_entries, k)].1@),
        );
        let target = old_map.insert(name, base + seq![sv]);
        assert forall|k: Seq<u8>| #[trigger]
            self.as_map().dom().contains(k) <==> target.dom().contains(k) by {
            if table_has(cur, k) {
                let j = choose|j: int| 0 <= j < cur.len() && (#[trigger] cur[j]).0@ == k;
                assert(old_entries[j].0@ == k);
                assert(table_has(old_entries, k));
            }
            if table_has(old_entries, k) {
                let j = choose|j: int|
                    0 <= j < old_entries.len() && (#[trigger] old_entries[j]).0@ == k;
                assert(cur[j].0@ == k);
                assert(table_has(cur, k));
            }
        }
        assert forall|k: Seq<u8>|
            self.as_map().dom().contains(k) implies #[trigger] self.as_map()[k] == target[k] by {
            let j = choose|j: int| 0 <= j < cur.len() && (#[trigger] cur[j]).0@ == k;
            lemma_table_index_unique(cur, k, j);
            lemma_table_index_unique(old_entries, k, j);
            if k == name {
                if j != i {
                    assert(cur[i].0@ == name);
                    assert(false);
                }
                assert(self.seeds_of(k) == base + seq![sv]);
            } else {
                assert(j != i);
                assert(cur[j] == old_entries[j]);
            }
        }
        assert(self.as_map() =~= target);
    }

    /// Proof that appending a fresh entry turns the denoted map into the
    /// inserted one.
    proof fn lemma_upsert_new(
        &self,
        old_entries: Seq<(Vec<u8>, Vec<Seed>)>,
        name: Seq<u8>,
        sv: SeedView,
    )
        requires
            table_keys_distinct(old_entries),
            !table_has(old_entries, name),
            self.entries@.len() == old_entries.len() + 1,
            forall|j: int|
                0 <= j < old_entries.len() ==> (#[trigger] self.entries@[j]) == old_entries[j],
            self.entries@[old_entries.len() as int].0@ == name,
            seed_views(self.entries@[old_entries.len() as int].1@) == seq![sv],
        ensures
            self.wf(),
            self.as_map() == Map::new(
                |k: Seq<u8>| table_has(old_entries, k),
                |k: Seq<u8>| seed_views(old_entries[table_index_of(old_entries, k)].1@),
            ).insert(name, Seq::<SeedView>::empty() + seq![sv]),
    {
        let cur = self.entries@;
        let n0 = old_entries.len() as int;
        assert forall|i: int, j: int| 0 <= i < j < cur.len() implies (#[trigger] cur[i]).0@
            != (#[trigger] cur[j]).0@ by {
            if j == n0 {
                if cur[i].0@ == name {
                    assert(table_has(old_entries, name));
                }
            }
        }
        let old_map = Map::new(
            |k: Seq<u8>| table_has(old_entries, k),
            |k: Seq<u8>| seed_views(old_entries[table_index_of(old_entries, k)].1@),
        );
        let target = old_map.insert(name, Seq::<SeedView>::empty() + seq![sv]);
        assert forall|k: Seq<u8>| #[trigger]
            self.as_map().dom().contains(k) <==> target.dom().contains(k) by {
            if table_has(cur, k) {
                let j = choose|j: int| 0 <= j < cur.len() && (#[trigger] cur[j]).0@ == k;
                if j < n0 {
                    assert(old_entries[j].0@ == k);
                    assert(table_has(old_entries, k));
                }
            }
            if table_has(old_entries, k) {
                let j = choose|j: int|
                    0 <= j < old_entries.len() && (#[trigger] old_entries[j]).0@ == k;
                assert(cur[j].0@ == k);
                assert(table_has(cur, k));
            }
        }
        assert forall|k: Seq<u8>|
            self.as_map().dom().contains(k) implies #[trigger] self.as_map()[k] == target[k] by {
            let j = choose|j: int| 0 <= j < cur.len() && (#[trigger] cur[j]).0@ == k;
            lemma_table_index_unique(cur, k, j);
            if k == name {
                if j != n0 {
                    assert(table_has(old_entries, name));
                }
                assert(self.seeds_of(k) == Seq::<SeedView>::empty() + seq![sv]) by {
                    assert(seed_views(cur[n0].1@) == seq![sv]);
                    assert(Seq::<SeedView>::empty() + seq![sv] =~= seq![sv]);
                }
            } else {
                assert(j != n0);
                lemma_table_index_unique(old_entries, k, j);
            }
        }
        assert(self.as_map() =~= target);
    }
}

/// Find the first entry keyed byte-identically to `key`.
pub fn find_key<V>(table: &Vec<(Vec<u8>, V)>, key: &Vec<u8>) -> (r: Option<usize>)
    ensures
        r matches Some(i) ==> i < table@.len() && table@[i as int].0@ == key@ && forall|j: int|
            0 <= j < i ==> (#[trigger] table@[j]).0@ != key@,
        (r is None) ==> forall|j: int|
            0 <= j < table@.len() ==> (#[trigger] table@[j]).0@ != key@,
{
    let mut i: usize = 0;
    while i < table.len()
        invariant
            i <= table@.len(),
            forall|j: int| 0 <= j < i ==> (#[trigger] table@[j]).0@ != key@,
        decreases table@.len() - i,
    {
        if bytes_eq(&table[i].0, key) {
            return Some(i);
        }
        i += 1;
    }
    None
}

/// The tables a caller supplies when the coarse filter ran against a
/// differently keyed representation of the profiles: a key-to-display-name
/// table and a coordinate map per profile, both keyed by the coarse
/// filter's profile key.
pub struct ProfileMapping {
    pub accession_to_name: Vec<(Vec<u8>, Vec<u8>)>,
    pub coordinate_maps: Vec<(Vec<u8>, CoordinateMap)>,
}

impl ProfileMapping {
    pub open spec fn wf(&self) -> bool {
        table_keys_distinct(self.accession_to_name@) && table_keys_distinct(self.coordinate_maps@)
    }
}

/// No profile name is on record for this accession.
#[derive(Debug)]
pub struct AccessionNotMappedError {
    pub accession: Vec<u8>,
}

/// No coordinate map is on record for this profile.
#[derive(Debug)]
pub struct ProfilesNotMappedError {
    pub profile_name: Vec<u8>,
}

/// Errors of seed aggregation.
#[derive(Debug)]
pub enum BuildSeedsError {
    /// The row does not hold six leading fields with parseable numbers.
    MalformedHitLine { line_number: usize },
    AccessionNotMapped(AccessionNotMappedError),
    ProfilesNotMapped(ProfilesNotMappedError),
    /// The row's profile span leaves the profile's coordinate map.
    CoordinateOutOfRange { line_number: usize },
}

/// The coordinate map the mapping holds for `key`.
pub open spec fn coord_map_of(m: &ProfileMapping, key: Seq<u8>) -> CoordinateMap {
    m.coordinate_maps@[table_index_of(m.coordinate_maps@, key)].1
}

/// Does the hit resolve through the mapping: known name, known coordinate
/// map, and a profile span inside that map?
pub open spec fn hit_resolves(h: RawHitView, m: &ProfileMapping) -> bool {
    &&& table_has(m.accession_to_name@, h.profile_key)
    &&& table_has(m.coordinate_maps@, h.profile_key)
    &&& 0 <= h.profile_start < coord_map_of(m, h.profile_key).entries@.len()
    &&& 0 <= h.profile_end < coord_map_of(m, h.profile_key).entries@.len()
}

/// A row the aggregator accepts: well-formed, and resolvable when a
/// mapping is in play.
pub open spec fn line_admissible(l: Seq<u8>, mapping: Option<&ProfileMapping>) -> bool {
    &&& hit_line_ok(l)
    &&& match mapping {
        Some(m) => hit_resolves(hit_of_line(l), m),
        None => true,
    }
}

/// A start boundary never resolves below `1`.
pub open spec fn clamp_start(v: int) -> int {
    if v < 1 {
        1
    } else {
        v
    }
}

/// The profile name a hit files under: its own key, or the mapped display
/// name.
pub open spec fn resolved_name(h: RawHitView, mapping: Option<&ProfileMapping>) -> Seq<u8> {
    match mapping {
        None => h.profile_key,
        Some(m) => m.accession_to_name@[table_index_of(m.accession_to_name@, h.profile_key)].1@,
    }
}

/// The seed a hit produces: raw coordinates, or the profile span translated
/// through the coordinate map with the start clamped to `1`.
pub open spec fn resolved_seed(h: RawHitView, mapping: Option<&ProfileMapping>) -> SeedView {
    match mapping {
        None => SeedView {
            target_name: h.target_name,
            target_start: h.target_start,
            target_end: h.target_end,
            profile_start: h.profile_start,
            profile_end: h.profile_end,
        },
        Some(m) => {
            let cm = coord_map_of(m, h.profile_key);
            SeedView {
                target_name: h.target_name,
                target_start: h.target_start,
                target_end: h.target_end,
                profile_start: clamp_start(cm.view_int()[h.profile_start]),
                profile_end: cm.view_int()[h.profile_end],
            }
        },
    }
}

/// The seed map after the first `upto` rows: each row appends its seed to
/// its profile's list, creating the list on first use.
pub open spec fn aggregate_upto(
    ls: Seq<Seq<u8>>,
    mapping: Option<&ProfileMapping>,
    upto: int,
) -> Map<Seq<u8>, Seq<SeedView>>
    decreases upto,
{
    if upto <= 0 {
        Map::empty()
    } else {
        let prev = aggregate_upto(ls, mapping, upto - 1);
        let h = hit_of_line(ls[upto - 1]);
        let name = resolved_name(h, mapping);
        let sv = resolved_seed(h, mapping);
        let cur = if prev.dom().contains(name) {
            prev[name]
        } else {
            Seq::<SeedView>::empty()
        };
        prev.insert(name, cur + seq![sv])
    }
}

/// What each aggregation error says of the rows: the named row truly
/// offends in the named way, and every earlier row went through.
pub open spec fn seeds_error_witness(
    ls: Seq<Seq<u8>>,
    mapping: Option<&ProfileMapping>,
    e: &BuildSeedsError,
) -> bool {
    match *e {
        BuildSeedsError::MalformedHitLine { line_number } => {
            &&& 1 <= line_number <= ls.len()
            &&& !hit_line_ok(ls[line_number - 1])
            &&& forall|j: int| 0 <= j < line_number - 1 ==> line_admissible(#[trigger] ls[j], mapping)
        },
        BuildSeedsError::AccessionNotMapped(a) => exists|k: int|
            {
                &&& 0 <= k < ls.len()
                &&& hit_line_ok(#[trigger] ls[k])
                &&& (mapping matches Some(m) && !table_has(
                    m.accession_to_name@,
                    hit_of_line(ls[k]).profile_key,
                ))
                &&& a.accession@ == hit_of_line(ls[k]).profile_key
                &&& forall|j: int| 0 <= j < k ==> line_admissible(#[trigger] ls[j], mapping)
            },
        BuildSeedsError::ProfilesNotMapped(p) => exists|k: int|
            {
                &&& 0 <= k < ls.len()
                &&& hit_line_ok(#[trigger] ls[k])
                &&& (mapping matches Some(m) && table_has(
                    m.accession_to_name@,
                    hit_of_line(ls[k]).profile_key,
                ) && !table_has(m.coordinate_maps@, hit_of_line(ls[k]).profile_key))
                &&& p.profile_name@ == resolved_name(hit_of_line(ls[k]), mapping)
                &&& forall|j: int| 0 <= j < k ==> line_admissible(#[trigger] ls[j], mapping)
            },
        BuildSeedsError::CoordinateOutOfRange { line_number } => {
            &&& 1 <= line_number <= ls.len()
            &&& hit_line_ok(ls[line_number - 1])
            &&& (mapping matches Some(m) && {
                let h = hit_of_line(ls[line_number - 1]);
                &&& table_has(m.accession_to_name@, h.profile_key)
                &&& table_has(m.coordinate_maps@, h.profile_key)
                &&& (h.profile_start >= coord_map_of(m, h.profile_key).entries@.len()
                    || h.profile_end >= coord_map_of(m, h.profile_key).entries@.len())
            })
            &&& forall|j: int| 0 <= j < line_number - 1 ==> line_admissible(#[trigger] ls[j], mapping)
        },
    }
}

/// Seed normalization. A hit whose raw coordinates are properly ordered
/// and 1-based on the target side, translated through a monotone
/// coordinate map whose value at the raw end boundary is at least `1`,
/// yields a seed with `1 <= profile_start <= profile_end` and
/// `1 <= target_start <= target_end` — also when the raw `profile_start`
/// is `0`, or resolves to `0` and is clamped. Maps built from a covering
/// trace are monotone (see the coordinate mapper's monotonicity lemma).
/// Without a mapping the raw coordinates pass through, so the seed is
/// normalized exactly when the raw hit already was.
pub proof fn lemma_seed_normalization(h: RawHitView, m: &ProfileMapping)
    requires
        hit_resolves(h, m),
        1 <= h.target_start <= h.target_end,
        0 <= h.profile_start <= h.profile_end,
        ({
            let cm = coord_map_of(m, h.profile_key);
            forall|i: int, j: int|
                0 <= i <= j < cm.entries@.len() ==> #[trigger] cm.view_int()[i]
                    <= #[trigger] cm.view_int()[j]
        }),
        coord_map_of(m, h.profile_key).view_int()[h.profile_end] >= 1,
    ensures
        ({
            let sv = resolved_seed(h, Some(m));
            &&& 1 <= sv.profile_start <= sv.profile_end
            &&& 1 <= sv.target_start <= sv.target_end
        }),
{
    let cm = coord_map_of(m, h.profile_key);
    assert(cm.view_int()[h.profile_start] <= cm.view_int()[h.profile_end]);
}

/// Aggregate coarse-filter rows into a seed map. Every row must parse and,
/// when a mapping is supplied, resolve through it; the first offending row
/// aborts the build with its diagnosis.
pub fn build_alignment_seeds(lines: &Vec<Vec<u8>>, mapping: Option<&ProfileMapping>) -> (r:
    Result<SeedMap, BuildSeedsError>)
    requires
        mapping matches Some(m) ==> m.wf(),
    ensures
        (r is Ok) <==> (forall|k: int|
            0 <= k < lines@.len() ==> line_admissible(#[trigger] lines.deep_view()[k], mapping)),
        r matches Ok(sm) ==> sm.wf() && sm.as_map() == aggregate_upto(
            lines.deep_view(),
            mapping,
            lines@.len() as int,
        ),
        r matches Err(e) ==> seeds_error_witness(lines.deep_view(), mapping, &e),
{
    let ghost ls = lines.deep_view();
    let mut sm = SeedMap::new();
    let mut k: usize = 0;
    while k < lines.len()
        invariant
            ls == lines.deep_view(),
            k <= lines@.len(),
            mapping matches Some(m) ==> m.wf(),
            sm.wf(),
            sm.as_map() == aggregate_upto(ls, mapping, k as int),
            forall|j: int| 0 <= j < k ==> line_admissible(#[trigger] ls[j], mapping),
        decreases lines@.len() - k,
    {
        proof {
            assert(ls[k as int] =~= lines@[k as int]@);
        }
        let hit = match parse_hit_line(&lines[k]) {
            Some(h) => h,
            None => {
                return Err(BuildSeedsError::MalformedHitLine { line_number: k + 1 });
            },
        };
        let ghost h = hit_of_line(ls[k as int]);
        let (name, seed): (Vec<u8>, Seed) = match mapping {
            None => {
                let name = copy_bytes(&hit.profile_key);
                (
                    name,
                    Seed {
                        target_name: hit.target_name,
                        target_start: hit.target_start,
                        target_end: hit.target_end,
                        profile_start: hit.profile_start,
                        profile_end: hit.profile_end,
                    },
                )
            },
            Some(m) => {
                let ni = match find_key(&m.accession_to_name, &hit.profile_key) {
                    Some(i) => i,
                    None => {
                        return Err(
                            BuildSeedsError::AccessionNotMapped(
                                AccessionNotMappedError { accession: hit.profile_key },
                            ),
                        );
                    },
                };
                proof {
                    lemma_table_index_unique(m.accession_to_name@, h.profile_key, ni as int);
                }
                let name = copy_bytes(&m.accession_to_name[ni].1);
                let mi = match find_key(&m.coordinate_maps, &hit.profile_key) {
                    Some(i) => i,
                    None => {
                        return Err(
                            BuildSeedsError::ProfilesNotMapped(
                                ProfilesNotMappedError { profile_name: name },
                            ),
                        );
                    },
                };
                proof {
                    lemma_table_index_unique(m.coordinate_maps@, h.profile_key, mi as int);
                }
                let cm = &m.coordinate_maps[mi].1;
                if hit.profile_start >= cm.entries.len() || hit.profile_end >= cm.entries.len() {
                    return Err(BuildSeedsError::CoordinateOutOfRange { line_number: k + 1 });
                }
                let ps = cm.map_start(hit.profile_start);
                let pe = cm.map_end(hit.profile_end);
                (
                    name,
                    Seed {
                        target_name: hit.target_name,
                        target_start: hit.target_start,
                        target_end: hit.target_end,
                        profile_start: ps,
                        profile_end: pe,
                    },
                )
            },
        };
        proof {
            assert(line_admissible(ls[k as int], mapping));
            assert(name@ == resolved_name(h, mapping));
            assert(seed@ == resolved_seed(h, mapping));
        }
        let ghost prev = sm.as_map();
        sm.insert_seed(name, seed);
        proof {
            assert(aggregate_upto(ls, mapping, k + 1) == prev.insert(
                resolved_name(h, mapping),
                (if prev.dom().contains(resolved_name(h, mapping)) {
                    prev[resolved_name(h, mapping)]
                } else {
                    Seq::<SeedView>::empty()
                }) + seq![resolved_seed(h, mapping)],
            ));
        }
        k += 1;
    }
    Ok(sm)
}

} // verus!
