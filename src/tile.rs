//! Tile variants and the adjacency rules derived from a prototype catalogue.
use vstd::prelude::*;
use core::ops::Range;
use crate::dir::{Dir, Rotation, lemma_rotate_y_opposite, lemma_opposite_involution};
use crate::prototype::{Prototype, Prototypes, lemma_compatible_symmetric};
use crate::sampling::{spec_sum, lemma_sum_step, lemma_sum_prefix_le};

verus! {

/// The dense identifier of a tile variant.
#[derive(Debug, Clone, Copy, PartialEq, Eq, Hash, Structural)]
pub struct TileID(pub u32);

/// A concrete (prototype, turn) pair: the unit placed into a cell.
#[derive(Debug)]
pub struct Tile {
    pub id: TileID,
    /// Position of the prototype in the catalogue.
    pub prototype: usize,
    pub y_rotation: Rotation,
    pub weight: usize,
    pub y_level: Option<Range<usize>>,
}

impl Tile {
    /// Whether the tile may occupy layer `y`.
    pub open spec fn spec_level_allows(&self, y: int) -> bool {
        match self.y_level {
            None => true,
            Some(r) => r.start <= y < r.end,
        }
    }

    /// Whether the tile may occupy layer `y`.
    pub fn level_allows(&self, y: usize) -> (r: bool)
        ensures
            r == self.spec_level_allows(y as int),
    {
        match &self.y_level {
            None => true,
            Some(range) => range.start <= y && y < range.end,
        }
    }
}

/// The tile variants, indexed by their identifier.
pub struct Tiles(pub Vec<Tile>);

/// The weights of the tile variants, by identifier.
pub open spec fn spec_weights(tiles: Seq<Tile>) -> Seq<usize> {
    tiles.map_values(|t: Tile| t.weight)
}

impl Tiles {
    /// The sum of all weights; `None` when it does not fit in a `usize`.
    pub fn total_weight(&self) -> (r: Option<usize>)
        ensures
            r matches Some(s) ==> s == spec_sum(spec_weights(self.0@)),
            r is None <==> spec_sum(spec_weights(self.0@)) > usize::MAX,
    {
        let ghost w = spec_weights(self.0@);
        let mut sum: usize = 0;
        let mut i: usize = 0;
        while i < self.0.len()
            invariant
                w == spec_weights(self.0@),
                0 <= i <= self.0@.len(),
                sum == spec_sum(w.subrange(0, i as int)),
            decreases self.0@.len() - i,
        {
            proof {
                lemma_sum_step(w, i as int);
                lemma_sum_prefix_le(w, i + 1);
            }
            match sum.checked_add(self.0[i].weight) {
                Some(next) => {
                    sum = next;
                },
                None => {
                    return None;
                },
            }
            i += 1;
        }
        proof {
            assert(w.subrange(0, i as int) =~= w);
        }
        Some(sum)
    }
}

/// For one tile variant, the variants allowed next to it in each direction.
pub struct AdjacencyRules {
    pub p_x: Vec<TileID>,
    pub n_x: Vec<TileID>,
    pub p_y: Vec<TileID>,
    pub n_y: Vec<TileID>,
    pub p_z: Vec<TileID>,
    pub n_z: Vec<TileID>,
}

impl AdjacencyRules {
    /// The list of neighbours allowed in direction `dir`.
    pub open spec fn spec_list(&self, dir: Dir) -> Seq<TileID> {
        match dir {
            Dir::Forward => self.n_z@,
            Dir::Backward => self.p_z@,
            Dir::Left => self.n_x@,
            Dir::Right => self.p_x@,
            Dir::Up => self.p_y@,
            Dir::Down => self.n_y@,
        }
    }

    /// Whether tile variant `b` is listed as a neighbour in direction `dir`.
    pub open spec fn spec_has(&self, dir: Dir, b: int) -> bool {
        exists|k: int| 0 <= k < self.spec_list(dir).len() && #[trigger] self.spec_list(dir)[k].0 == b
    }

    pub open spec fn spec_len(&self) -> nat {
        self.p_x@.len() + self.n_x@.len() + self.p_y@.len() + self.n_y@.len() + self.p_z@.len()
            + self.n_z@.len()
    }

    /// Rules with no neighbour allowed anywhere.
    pub fn empty() -> (r: AdjacencyRules)
        ensures
            forall|d: Dir| r.spec_list(d).len() == 0,
    {
        AdjacencyRules {
            p_x: Vec::new(),
            n_x: Vec::new(),
            p_y: Vec::new(),
            n_y: Vec::new(),
            p_z: Vec::new(),
            n_z: Vec::new(),
        }
    }

    pub fn from_dir(&self, dir: Dir) -> (r: &[TileID])
        ensures
            r@ == self.spec_list(dir),
    {
        match dir {
            Dir::Forward => self.n_z.as_slice(),
            Dir::Backward => self.p_z.as_slice(),
            Dir::Left => self.n_x.as_slice(),
            Dir::Right => self.p_x.as_slice(),
            Dir::Up => self.p_y.as_slice(),
            Dir::Down => self.n_y.as_slice(),
        }
    }

    pub fn from_dir_mut(&mut self, dir: Dir) -> (r: &mut Vec<TileID>)
        ensures
            r@ == old(self).spec_list(dir),
            final(self).spec_list(dir) == final(r)@,
            forall|d: Dir| d != dir ==> final(self).spec_list(d) == old(self).spec_list(d),
    {
        match dir {
            Dir::Forward => &mut self.n_z,
            Dir::Backward => &mut self.p_z,
            Dir::Left => &mut self.n_x,
            Dir::Right => &mut self.p_x,
            Dir::Up => &mut self.p_y,
            Dir::Down => &mut self.n_y,
        }
    }

    /// The number of entries over all six directions.
    pub fn len(&self) -> (r: usize)
        requires
            self.spec_len() <= usize::MAX,
        ensures
            r == self.spec_len(),
    {
        self.p_x.len() + self.n_x.len() + self.p_y.len() + self.n_y.len() + self.p_z.len()
            + self.n_z.len()
    }
}

/// The adjacency rules of every tile variant, indexed by its identifier.
pub struct AdjRuleSet(pub Vec<AdjacencyRules>);

impl AdjRuleSet {
    /// Every listed pairing is listed from the other side as well.
    pub open spec fn spec_symmetric(&self) -> bool {
        AdjRuleSet::spec_symmetric_seq(self.0@)
    }

    /// Whether variant `b` may sit next to variant `a` in direction `d`.
    pub open spec fn spec_allows_seq(rules: Seq<AdjacencyRules>, a: int, d: Dir, b: int) -> bool {
        0 <= a < rules.len() && rules[a].spec_has(d, b)
    }

    /// Every listed pairing is listed from the other side as well.
    pub open spec fn spec_symmetric_seq(rules: Seq<AdjacencyRules>) -> bool {
        forall|a: int, d: Dir, b: int|
            #[trigger] AdjRuleSet::spec_allows_seq(rules, a, d, b) ==> AdjRuleSet::spec_allows_seq(
                rules,
                b,
                d.spec_opposite(),
                a,
            )
    }
}

/// The tile variants of a catalogue: for each prototype in order, one
/// (prototype position, turn) pair per allowed turn, in the declared order.
pub open spec fn spec_variants(ps: Seq<Prototype>) -> Seq<(int, Rotation)>
    decreases ps.len(),
{
    if ps.len() == 0 {
        Seq::empty()
    } else {
        spec_variants(ps.drop_last()) + ps.last().y_rotations@.map_values(
            |r: Rotation| ((ps.len() - 1) as int, r),
        )
    }
}

/// Whether the face of variant `va` looking in direction `d` may touch the
/// face of variant `vb` looking the opposite way.
pub open spec fn spec_variant_allows(
    ps: Seq<Prototype>,
    va: (int, Rotation),
    d: Dir,
    vb: (int, Rotation),
) -> bool {
    ps[va.0].spec_socket(d.spec_rotate_y(va.1)).spec_compatible(
        va.1,
        ps[vb.0].spec_socket(d.spec_opposite().spec_rotate_y(vb.1)),
        vb.1,
    )
}

/// Tile `t` is variant `v` of catalogue `ps`, with identifier `i`.
pub open spec fn spec_tile_is(ps: Seq<Prototype>, v: (int, Rotation), t: Tile, i: int) -> bool {
    &&& t.id.0 == i
    &&& t.prototype == v.0
    &&& t.y_rotation == v.1
    &&& 0 <= v.0 < ps.len()
    &&& t.weight == ps[v.0].weight
    &&& t.y_level == ps[v.0].y_level
}

/// `list` holds, in increasing order, exactly the variants `b < n` that
/// variant `va` allows in direction `d`.
pub open spec fn spec_rule_list(
    ps: Seq<Prototype>,
    vs: Seq<(int, Rotation)>,
    va: (int, Rotation),
    d: Dir,
    n: int,
    list: Seq<TileID>,
) -> bool {
    &&& forall|i: int, j: int| 0 <= i < j < list.len() ==> list[i].0 < list[j].0
    &&& forall|k: int|
        0 <= k < list.len() ==> list[k].0 < n && spec_variant_allows(ps, va, d, vs[list[k].0 as int])
    &&& forall|b: int|
        0 <= b < n && #[trigger] spec_variant_allows(ps, va, d, vs[b]) ==> exists|k: int|
            0 <= k < list.len() && #[trigger] list[k].0 == b
}

/// `tiles` and `rules` are what the catalogue `ps` compiles to.
pub open spec fn spec_compiled(ps: Seq<Prototype>, tiles: Seq<Tile>, rules: Seq<AdjacencyRules>) -> bool {
    let vs = spec_variants(ps);
    &&& tiles.len() == vs.len()
    &&& rules.len() == vs.len()
    &&& forall|i: int| 0 <= i < vs.len() ==> spec_tile_is(ps, vs[i], #[trigger] tiles[i], i)
    &&& forall|a: int, d: Dir|
        0 <= a < vs.len() ==> spec_rule_list(ps, vs, vs[a], d, vs.len() as int, #[trigger] rules[a].spec_list(d))
}

/// Compiled rules are symmetric: if B may sit in direction d of A, then A may
/// sit in the opposite direction of B.
pub proof fn lemma_compiled_rules_symmetric(ps: Seq<Prototype>, tiles: Seq<Tile>, rules: Seq<AdjacencyRules>)
    requires
        spec_compiled(ps, tiles, rules),
    ensures
        AdjRuleSet::spec_symmetric_seq(rules),
{
    let vs = spec_variants(ps);
    let n = vs.len() as int;
    assert forall|a: int, d: Dir, b: int| #[trigger] AdjRuleSet::spec_allows_seq(rules, a, d, b)
        implies AdjRuleSet::spec_allows_seq(rules, b, d.spec_opposite(), a) by {
        let la = rules[a].spec_list(d);
        assert(spec_rule_list(ps, vs, vs[a], d, n, la));
        let k = choose|k: int| 0 <= k < la.len() && #[trigger] la[k].0 == b;
        assert(la[k].0 < n);
        assert(spec_variant_allows(ps, vs[a], d, vs[b]));
        let od = d.spec_opposite();
        lemma_rotate_y_opposite(d, vs[b].1);
        lemma_rotate_y_opposite(od, vs[a].1);
        lemma_opposite_involution(d);
        lemma_compatible_symmetric(
            ps[vs[a].0].spec_socket(d.spec_rotate_y(vs[a].1)),
            vs[a].1,
            ps[vs[b].0].spec_socket(od.spec_rotate_y(vs[b].1)),
            vs[b].1,
        );
        assert(spec_variant_allows(ps, vs[b], od, vs[a]));
        let lb = rules[b].spec_list(od);
        assert(spec_rule_list(ps, vs, vs[b], od, n, lb));
        assert(rules[b].spec_has(od, a));
    }
}

/// Appends `id` to the list of `rule` for each direction in which the face of
/// `prototype` turned by `rotation` may touch the face of `other_prt` turned
/// by `other_rotation`.
fn append_rule(
    prototype: &Prototype,
    rotation: Rotation,
    other_prt: &Prototype,
    other_rotation: Rotation,
    rule: &mut AdjacencyRules,
    id: u32,
)
    ensures
        forall|d: Dir| #[trigger] final(rule).spec_list(d) == if prototype.spec_socket(d.spec_rotate_y(rotation)).spec_compatible(
            rotation,
            other_prt.spec_socket(d.spec_opposite().spec_rotate_y(other_rotation)),
            other_rotation,
        ) {
            old(rule).spec_list(d).push(TileID(id))
        } else {
            old(rule).spec_list(d)
        },
{
    let dirs = Dir::all();
    let ghost start = *rule;
    let mut i: usize = 0;
    while i < dirs.len()
        invariant
            dirs@ == Dir::spec_all(),
            0 <= i <= 6,
            forall|k: int| 0 <= k < i ==> #[trigger] rule.spec_list(dirs@[k]) == if prototype.spec_socket(dirs@[k].spec_rotate_y(rotation)).spec_compatible(
                rotation,
                other_prt.spec_socket(dirs@[k].spec_opposite().spec_rotate_y(other_rotation)),
                other_rotation,
            ) {
                start.spec_list(dirs@[k]).push(TileID(id))
            } else {
                start.spec_list(dirs@[k])
            },
            forall|k: int| i <= k < 6 ==> #[trigger] rule.spec_list(dirs@[k]) == start.spec_list(dirs@[k]),
        decreases 6 - i,
    {
        let dir = dirs[i];
        let rot_dir = dir.rotate_y(rotation);
        let other_rot_dir = dir.rotate_y(other_rotation).opposite();
        proof {
            lemma_rotate_y_opposite(dir, other_rotation);
        }
        let sock = prototype.socket_from_dir(rot_dir);
        let other_sock = other_prt.socket_from_dir(other_rot_dir);
        if sock.compatible(rotation, &other_sock, other_rotation) {
            rule.from_dir_mut(dir).push(TileID(id));
        }
        i += 1;
    }
    assert forall|d: Dir| #[trigger] rule.spec_list(d) == if prototype.spec_socket(d.spec_rotate_y(rotation)).spec_compatible(
            rotation,
            other_prt.spec_socket(d.spec_opposite().spec_rotate_y(other_rotation)),
            other_rotation,
        ) {
            start.spec_list(d).push(TileID(id))
        } else {
            start.spec_list(d)
        } by {
        let k: int = match d {
            Dir::Forward => 0,
            Dir::Backward => 1,
            Dir::Left => 2,
            Dir::Right => 3,
            Dir::Up => 4,
            Dir::Down => 5,
        };
        assert(dirs@[k] == d);
    }
}

/// The variants of the first `p + 1` prototypes are those of the first `p`
/// followed by one per turn of prototype `p`.
proof fn lemma_variants_step(ps: Seq<Prototype>, p: int)
    requires
        0 <= p < ps.len(),
    ensures
        spec_variants(ps.subrange(0, p + 1)) == spec_variants(ps.subrange(0, p))
            + ps[p].y_rotations@.map_values(|r: Rotation| (p, r)),
{
    let sub = ps.subrange(0, p + 1);
    assert(sub.drop_last() =~= ps.subrange(0, p));
    assert(sub.last() == ps[p]);
    assert(ps[p].y_rotations@.map_values(|r: Rotation| (p, r)) =~= sub.last().y_rotations@.map_values(
        |r: Rotation| ((sub.len() - 1) as int, r),
    ));
}

/// The catalogue's prefixes have no more variants than the whole catalogue.
proof fn lemma_variants_len_mono(ps: Seq<Prototype>, p: int)
    requires
        0 <= p <= ps.len(),
    ensures
        spec_variants(ps.subrange(0, p)).len() <= spec_variants(ps).len(),
    decreases ps.len() - p,
{
    if p == ps.len() {
        assert(ps.subrange(0, p) =~= ps);
    } else {
        lemma_variants_step(ps, p);
        lemma_variants_len_mono(ps, p + 1);
    }
}

/// Whether the catalogue's variants can all be given a `u32` identifier.
pub fn ids_fit(prototypes: &Prototypes) -> (r: bool)
    ensures
        r == (spec_variants(prototypes.0@).len() <= u32::MAX),
{
    let ghost ps = prototypes.0@;
    let limit: usize = u32::MAX as usize;
    let mut count: usize = 0;
    let mut p: usize = 0;
    while p < prototypes.0.len()
        invariant
            ps == prototypes.0@,
            limit == u32::MAX,
            0 <= p <= ps.len(),
            count == spec_variants(ps.subrange(0, p as int)).len(),
            count <= limit,
        decreases ps.len() - p,
    {
        proof {
            lemma_variants_step(ps, p as int);
            lemma_variants_len_mono(ps, p + 1);
        }
        let len = prototypes.0[p].y_rotations.len();
        if len > limit - count {
            return false;
        }
        count = count + len;
        p += 1;
    }
    proof {
        assert(ps.subrange(0, p as int) =~= ps);
    }
    true
}

/// Expands every (prototype, allowed turn) pair of the catalogue into a tile
/// variant with a dense identifier, and derives for each variant and each
/// direction the variants that may sit next to it there.
pub fn generate_tiles_and_rules(prototypes: &Prototypes) -> (r: (Tiles, AdjRuleSet))
    requires
        spec_variants(prototypes.0@).len() <= u32::MAX,
    ensures
        spec_compiled(prototypes.0@, r.0.0@, r.1.0@),
        r.1.spec_symmetric(),
{
    let ghost ps = prototypes.0@;
    let mut tiles: Vec<Tile> = Vec::new();
    let mut p: usize = 0;
    while p < prototypes.0.len()
        invariant
            ps == prototypes.0@,
            0 <= p <= ps.len(),
            spec_variants(ps).len() <= u32::MAX,
            tiles@.len() == spec_variants(ps.subrange(0, p as int)).len(),
            forall|i: int|
                0 <= i < tiles@.len() ==> spec_tile_is(
                    ps,
                    spec_variants(ps.subrange(0, p as int))[i],
                    #[trigger] tiles@[i],
                    i,
                ),
        decreases ps.len() - p,
    {
        let prototype = &prototypes.0[p];
        let ghost base = tiles@.len();
        let ghost prefix = spec_variants(ps.subrange(0, p as int));
        proof {
            lemma_variants_step(ps, p as int);
            lemma_variants_len_mono(ps, p + 1);
        }
        let mut k: usize = 0;
        while k < prototype.y_rotations.len()
            invariant
                ps == prototypes.0@,
                0 <= p < ps.len(),
                *prototype == ps[p as int],
                prefix == spec_variants(ps.subrange(0, p as int)),
                base == prefix.len(),
                base + prototype.y_rotations@.len() <= u32::MAX,
                0 <= k <= prototype.y_rotations@.len(),
                tiles@.len() == base + k,
                forall|i: int| 0 <= i < base ==> spec_tile_is(ps, prefix[i], #[trigger] tiles@[i], i),
                forall|j: int|
                    0 <= j < k ==> spec_tile_is(
                        ps,
                        (p as int, prototype.y_rotations@[j]),
                        #[trigger] tiles@[base + j],
                        base + j,
                    ),
            decreases prototype.y_rotations@.len() - k,
        {
            let y_level = match &prototype.y_level {
                None => None,
                Some(range) => Some(Range { start: range.start, end: range.end }),
            };
            let id = tiles.len() as u32;
            tiles.push(
                Tile {
                    id: TileID(id),
                    prototype: p,
                    y_rotation: prototype.y_rotations[k],
                    weight: prototype.weight,
                    y_level,
                },
            );
            proof {
                assert(spec_tile_is(ps, (p as int, prototype.y_rotations@[k as int]), tiles@[base + k], base + k));
            }
            k += 1;
        }
        proof {
            let next = spec_variants(ps.subrange(0, p + 1));
            assert forall|i: int| 0 <= i < tiles@.len() implies spec_tile_is(
                ps,
                next[i],
                #[trigger] tiles@[i],
                i,
            ) by {
                if i >= base {
                    assert(tiles@[i] == tiles@[base + (i - base)]);
                }
            }
        }
        p += 1;
    }
    proof {
        assert(ps.subrange(0, ps.len() as int) =~= ps);
    }
    let ghost vs = spec_variants(ps);
    let n = tiles.len();
    let mut rules: Vec<AdjacencyRules> = Vec::new();
    let mut a: usize = 0;
    while a < n
        invariant
            ps == prototypes.0@,
            vs == spec_variants(ps),
            n == tiles@.len(),
            n == vs.len(),
            n <= u32::MAX,
            forall|i: int| 0 <= i < n ==> spec_tile_is(ps, vs[i], #[trigger] tiles@[i], i),
            0 <= a <= n,
            rules@.len() == a,
            forall|a2: int, d: Dir|
                0 <= a2 < a ==> spec_rule_list(ps, vs, vs[a2], d, n as int, #[trigger] rules@[a2].spec_list(d)),
        decreases n - a,
    {
        let mut rule = AdjacencyRules::empty();
        let mut b: usize = 0;
        assert(spec_tile_is(ps, vs[a as int], tiles@[a as int], a as int));
        while b < n
            invariant
                ps == prototypes.0@,
                vs == spec_variants(ps),
                n == tiles@.len(),
                n == vs.len(),
                n <= u32::MAX,
                forall|i: int| 0 <= i < n ==> spec_tile_is(ps, vs[i], #[trigger] tiles@[i], i),
                0 <= a < n,
                0 <= b <= n,
                forall|d: Dir| spec_rule_list(ps, vs, vs[a as int], d, b as int, #[trigger] rule.spec_list(d)),
            decreases n - b,
        {
            let ghost before = rule;
            assert(spec_tile_is(ps, vs[b as int], tiles@[b as int], b as int));
            append_rule(
                &prototypes.0[tiles[a].prototype],
                tiles[a].y_rotation,
                &prototypes.0[tiles[b].prototype],
                tiles[b].y_rotation,
                &mut rule,
                b as u32,
            );
            proof {
                assert forall|d: Dir| spec_rule_list(ps, vs, vs[a as int], d, b + 1, #[trigger] rule.spec_list(d)) by {
                    let l0 = before.spec_list(d);
                    let l1 = rule.spec_list(d);
                    assert(spec_rule_list(ps, vs, vs[a as int], d, b as int, l0));
                    if spec_variant_allows(ps, vs[a as int], d, vs[b as int]) {
                        assert(l1 == l0.push(TileID(b as u32)));
                        assert(l1[l0.len() as int].0 == b);
                        assert forall|b2: int|
                            0 <= b2 < b + 1 && #[trigger] spec_variant_allows(ps, vs[a as int], d, vs[b2])
                            implies exists|k: int| 0 <= k < l1.len() && #[trigger] l1[k].0 == b2 by {
                            if b2 < b {
                                let k = choose|k: int| 0 <= k < l0.len() && #[trigger] l0[k].0 == b2;
                                assert(l1[k] == l0[k]);
                            } else {
                                assert(l1[l0.len() as int].0 == b2);
                            }
                        }
                    } else {
                        assert(l1 == l0);
                    }
                }
            }
            b += 1;
        }
        rules.push(rule);
        a += 1;
    }
    proof {
        lemma_compiled_rules_symmetric(ps, tiles@, rules@);
    }
    (Tiles(tiles), AdjRuleSet(rules))
}

} // verus!
