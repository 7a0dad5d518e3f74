//! Bonded topologies of polydisperse polymer ensembles: linear chains, rings, dendrimers and
//! bottlebrushes, with their angles, dihedrals, degrees and growth parents.
use vstd::prelude::*;

use crate::genetics::EvaluationError;
use crate::text::{decimal, push_decimal};

verus! {

/// The graph template of every chain.
#[derive(Clone, Copy, PartialEq, Eq, Structural, Debug)]
pub enum PolymerArchitecture {
    Linear,
    Ring,
    Dendritic,
    Bottlebrush,
}

impl PolymerArchitecture {
    /// The architecture with the given code: 0 linear, 1 ring, 2 dendritic, 3 bottlebrush.
    pub fn from_code(code: u32) -> (r: Option<PolymerArchitecture>)
        ensures
            r == spec_from_code(code),
            code == 0 ==> r == Some(PolymerArchitecture::Linear),
            code == 1 ==> r == Some(PolymerArchitecture::Ring),
            code == 2 ==> r == Some(PolymerArchitecture::Dendritic),
            code == 3 ==> r == Some(PolymerArchitecture::Bottlebrush),
            code > 3 ==> r is None,
    {
        match code {
            0 => Some(PolymerArchitecture::Linear),
            1 => Some(PolymerArchitecture::Ring),
            2 => Some(PolymerArchitecture::Dendritic),
            3 => Some(PolymerArchitecture::Bottlebrush),
            _ => None,
        }
    }

    /// The code a session reports for the architecture: 0 linear, 1 ring, 2 dendritic,
    /// 3 bottlebrush.
    pub fn code(self) -> (r: u32)
        ensures
            r == spec_architecture_code(self),
    {
        match self {
            PolymerArchitecture::Linear => 0,
            PolymerArchitecture::Ring => 1,
            PolymerArchitecture::Dendritic => 2,
            PolymerArchitecture::Bottlebrush => 3,
        }
    }
}

/// The code of an architecture.
pub open spec fn spec_architecture_code(a: PolymerArchitecture) -> u32 {
    match a {
        PolymerArchitecture::Linear => 0,
        PolymerArchitecture::Ring => 1,
        PolymerArchitecture::Dendritic => 2,
        PolymerArchitecture::Bottlebrush => 3,
    }
}

/// The architecture a code names, as `from_code` reads it.
pub open spec fn spec_from_code(code: u32) -> Option<PolymerArchitecture> {
    if code == 0 {
        Some(PolymerArchitecture::Linear)
    } else if code == 1 {
        Some(PolymerArchitecture::Ring)
    } else if code == 2 {
        Some(PolymerArchitecture::Dendritic)
    } else if code == 3 {
        Some(PolymerArchitecture::Bottlebrush)
    } else {
        None
    }
}

/// Codes and architectures correspond one to one: reading an architecture's code gives the
/// architecture back, and a code that names an architecture is that architecture's code.
pub proof fn lemma_architecture_code_roundtrip(a: PolymerArchitecture, code: u32)
    ensures
        spec_from_code(spec_architecture_code(a)) == Some(a),
        spec_architecture_code(a) < 4,
        spec_from_code(code) == Some(a) <==> code == spec_architecture_code(a),
        spec_from_code(code) is None <==> code >= 4,
{
}

impl Default for PolymerArchitecture {
    fn default() -> (r: Self)
        ensures
            r == PolymerArchitecture::Linear,
    {
        PolymerArchitecture::Linear
    }
}

/// Shape parameters of the branched templates.
#[derive(Clone, Copy, PartialEq, Eq, Structural, Debug)]
pub struct PolymerMorphology {
    pub dendritic_branching: usize,
    pub dendritic_spacer: usize,
    pub bottlebrush_graft_spacing: usize,
    pub bottlebrush_side_chain: usize,
}

impl Default for PolymerMorphology {
    fn default() -> (r: Self)
        ensures
            r == (PolymerMorphology {
                dendritic_branching: 2,
                dendritic_spacer: 2,
                bottlebrush_graft_spacing: 2,
                bottlebrush_side_chain: 3,
            }),
    {
        PolymerMorphology {
            dendritic_branching: 2,
            dendritic_spacer: 2,
            bottlebrush_graft_spacing: 2,
            bottlebrush_side_chain: 3,
        }
    }
}

/// The supported morphology bounds: branching 2..=3, spacer 1..=8, graft spacing 1..=16,
/// side chain 1..=32.
pub open spec fn morphology_ok(m: PolymerMorphology) -> bool {
    &&& 2 <= m.dendritic_branching <= 3
    &&& 1 <= m.dendritic_spacer <= 8
    &&& 1 <= m.bottlebrush_graft_spacing <= 16
    &&& 1 <= m.bottlebrush_side_chain <= 32
}

/// Division rounding up.
pub open spec fn ceil_div(a: int, b: int) -> int {
    (a + b - 1) / b
}

/// A backbone of `b` beads with one side chain on every graft-spacing-th backbone bead fits
/// in `length` beads.
pub open spec fn backbone_fits(b: int, length: int, m: PolymerMorphology) -> bool {
    b + ceil_div(b, m.bottlebrush_graft_spacing as int) * m.bottlebrush_side_chain <= length
}

/// The longest backbone in 2..=b that fits, if any.
pub open spec fn longest_fit(b: int, length: int, m: PolymerMorphology) -> Option<int>
    decreases b,
{
    if b < 2 {
        None
    } else if backbone_fits(b, length, m) {
        Some(b)
    } else {
        longest_fit(b - 1, length, m)
    }
}

/// Backbone length of a bottlebrush of `length` beads: the longest backbone of at least two
/// beads that leaves room for its side chains, or two (at most `length`) when none does.
pub open spec fn spec_backbone_length(length: int, m: PolymerMorphology) -> int {
    match longest_fit(length, length, m) {
        Some(b) => b,
        None => if length < 2 {
            length
        } else {
            2
        },
    }
}

proof fn lemma_longest_fit_range(b: int, length: int, m: PolymerMorphology)
    ensures
        longest_fit(b, length, m) matches Some(r) ==> 2 <= r <= b && backbone_fits(r, length, m),
    decreases b,
{
    if b >= 2 && !backbone_fits(b, length, m) {
        lemma_longest_fit_range(b - 1, length, m);
    }
}

pub fn bottlebrush_backbone_length(length: usize, morphology: PolymerMorphology) -> (r: usize)
    requires
        morphology.bottlebrush_graft_spacing >= 1,
    ensures
        r == spec_backbone_length(length as int, morphology),
        r <= length,
{
    let spacing = morphology.bottlebrush_graft_spacing;
    let side = morphology.bottlebrush_side_chain;
    let mut backbone = length;
    while backbone >= 2
        invariant
            backbone <= length,
            spacing == morphology.bottlebrush_graft_spacing,
            side == morphology.bottlebrush_side_chain,
            spacing >= 1,
            longest_fit(length as int, length as int, morphology) == longest_fit(
                backbone as int,
                length as int,
                morphology,
            ),
        decreases backbone,
    {
        proof {
            assert(backbone % spacing != 0 ==> backbone / spacing < backbone) by (nonlinear_arith)
                requires
                    spacing >= 1,
                    backbone >= 2,
            {
            }
        }
        let grafts = backbone / spacing + if backbone % spacing != 0 {
            1
        } else {
            0
        };
        proof {
            assert(grafts == ceil_div(backbone as int, spacing as int)) by (nonlinear_arith)
                requires
                    spacing >= 1,
                    grafts == backbone / spacing + if backbone % spacing != 0 {
                        1int
                    } else {
                        0int
                    },
            {
            }
        }
        let fits = match grafts.checked_mul(side) {
            Some(chains) => match backbone.checked_add(chains) {
                Some(total) => total <= length,
                None => false,
            },
            None => false,
        };
        if fits {
            return backbone;
        }
        backbone -= 1;
    }
    if length < 2 {
        length
    } else {
        2
    }
}


/// Local index (within its chain) of the bead that bead `k >= 1` grows from. Linear chains and
/// rings grow bead by bead. A dendrimer grows arms of `spacer` beads; the first `branching`
/// arms hang from the core, and arm `a` after them hangs from the tip of arm
/// `a / branching - 1`. A bottlebrush grows its backbone, then one side chain per graft bead
/// (every graft-spacing-th backbone bead), and continues any remaining beads from the last tip.
pub open spec fn local_parent(
    arch: PolymerArchitecture,
    m: PolymerMorphology,
    length: int,
    k: int,
) -> int {
    match arch {
        PolymerArchitecture::Linear | PolymerArchitecture::Ring => k - 1,
        PolymerArchitecture::Dendritic => {
            let s = m.dendritic_spacer as int;
            let b = m.dendritic_branching as int;
            let a = (k - 1) / s;
            if (k - 1) % s > 0 {
                k - 1
            } else if a < b {
                0
            } else {
                (a / b) * s
            }
        },
        PolymerArchitecture::Bottlebrush => {
            let bb = spec_backbone_length(length, m);
            let sc = m.bottlebrush_side_chain as int;
            let j = (k - bb) / sc;
            if k < bb {
                k - 1
            } else if j < ceil_div(bb, m.bottlebrush_graft_spacing as int) && (k - bb) % sc == 0 {
                j * m.bottlebrush_graft_spacing
            } else {
                k - 1
            }
        },
    }
}

/// The bond by which bead `k` of a chain starting at `start` joins its growth parent.
pub open spec fn growth_bond(
    start: int,
    length: int,
    arch: PolymerArchitecture,
    m: PolymerMorphology,
    k: int,
) -> (usize, usize) {
    ((start + local_parent(arch, m, length, k)) as usize, (start + k) as usize)
}

/// The growth bonds of beads 1..=n of a chain.
pub open spec fn growth_prefix(
    start: int,
    length: int,
    arch: PolymerArchitecture,
    m: PolymerMorphology,
    n: int,
) -> Seq<(usize, usize)> {
    Seq::new(n as nat, |i: int| growth_bond(start, length, arch, m, i + 1))
}

/// The bonds of one chain of `length` beads starting at bead `start`, in the order they are
/// made: the growth bond of every bead after the first, then, for a ring of more than two
/// beads, the bond closing the ring.
pub open spec fn arch_bonds(
    start: int,
    length: int,
    arch: PolymerArchitecture,
    m: PolymerMorphology,
) -> Seq<(usize, usize)> {
    growth_prefix(start, length, arch, m, length - 1) + if arch == PolymerArchitecture::Ring
        && length > 2 {
        seq![(start as usize, (start + length - 1) as usize)]
    } else {
        Seq::<(usize, usize)>::empty()
    }
}

proof fn lemma_growth_prefix_push(
    start: int,
    length: int,
    arch: PolymerArchitecture,
    m: PolymerMorphology,
    n: int,
)
    requires
        n >= 0,
    ensures
        growth_prefix(start, length, arch, m, n + 1) == growth_prefix(start, length, arch, m, n).push(
            growth_bond(start, length, arch, m, n + 1),
        ),
{
    assert(growth_prefix(start, length, arch, m, n + 1) =~= growth_prefix(
        start,
        length,
        arch,
        m,
        n,
    ).push(growth_bond(start, length, arch, m, n + 1)));
}

proof fn lemma_div_mod_unique(q: int, r: int, d: int)
    requires
        d > 0,
        0 <= r < d,
        q >= 0,
    ensures
        (q * d + r) / d == q,
        (q * d + r) % d == r,
{
    assert((q * d + r) / d == q && (q * d + r) % d == r) by (nonlinear_arith)
        requires
            d > 0,
            0 <= r < d,
            q >= 0,
    {
    }
}

/// Appends the bonds of a linear chain or a ring.
fn push_linear_bonds(bonds: &mut Vec<(usize, usize)>, start: usize, end: usize, ring: bool)
    requires
        start + 2 <= end,
    ensures
        final(bonds)@ == old(bonds)@ + arch_bonds(
            start as int,
            end - start,
            if ring {
                PolymerArchitecture::Ring
            } else {
                PolymerArchitecture::Linear
            },
            PolymerMorphology {
                dendritic_branching: 2,
                dendritic_spacer: 2,
                bottlebrush_graft_spacing: 2,
                bottlebrush_side_chain: 3,
            },
        ),
{
    let ghost arch = if ring {
        PolymerArchitecture::Ring
    } else {
        PolymerArchitecture::Linear
    };
    let ghost m = PolymerMorphology {
        dendritic_branching: 2,
        dendritic_spacer: 2,
        bottlebrush_graft_spacing: 2,
        bottlebrush_side_chain: 3,
    };
    let ghost length = end - start;
    let mut atom = start;
    while atom < end - 1
        invariant
            start <= atom <= end - 1,
            start + 2 <= end,
            length == end - start,
            arch == if ring {
                PolymerArchitecture::Ring
            } else {
                PolymerArchitecture::Linear
            },
            bonds@ == old(bonds)@ + growth_prefix(start as int, length, arch, m, atom - start),
        decreases end - atom,
    {
        proof {
            lemma_growth_prefix_push(start as int, length, arch, m, atom - start);
        }
        let ghost before = bonds@;
        bonds.push((atom, atom + 1));
        proof {
            let p = growth_prefix(start as int, length, arch, m, atom - start);
            assert(growth_bond(start as int, length, arch, m, atom - start + 1) == (atom, (atom + 1) as usize));
            assert(bonds@ =~= old(bonds)@ + p.push((atom, (atom + 1) as usize)));
        }
        atom += 1;
    }
    if ring && end - start > 2 {
        bonds.push((start, end - 1));
    }
}


proof fn lemma_ceil_div_bound(j: int, g: int, bb: int)
    requires
        g >= 1,
        j >= 0,
        bb >= 0,
    ensures
        j * g < bb <==> j < ceil_div(bb, g),
{
    assert(j * g < bb <==> j < ceil_div(bb, g)) by (nonlinear_arith)
        requires
            g >= 1,
            j >= 0,
            bb >= 0,
    {
    }
}

/// Appends the bonds of a bottlebrush.
#[verifier::rlimit(40)]
fn push_bottlebrush_bonds(
    bonds: &mut Vec<(usize, usize)>,
    start: usize,
    end: usize,
    morphology: PolymerMorphology,
)
    requires
        start + 2 <= end,
        morphology_ok(morphology),
    ensures
        final(bonds)@ == old(bonds)@ + arch_bonds(
            start as int,
            end - start,
            PolymerArchitecture::Bottlebrush,
            morphology,
        ),
{
    let ghost arch = PolymerArchitecture::Bottlebrush;
    let ghost length = end - start;
    let backbone = bottlebrush_backbone_length(end - start, morphology);
    proof {
        lemma_longest_fit_range(length, length, morphology);
    }
    let graft_spacing = morphology.bottlebrush_graft_spacing;
    let side_chain = morphology.bottlebrush_side_chain;
    let mut local: usize = 0;
    while local < backbone - 1
        invariant
            2 <= backbone <= end - start,
            backbone == spec_backbone_length(length, morphology),
            length == end - start,
            arch == PolymerArchitecture::Bottlebrush,
            local <= backbone - 1,
            bonds@ == old(bonds)@ + growth_prefix(start as int, length, arch, morphology, local as int),
        decreases backbone - local,
    {
        proof {
            lemma_growth_prefix_push(start as int, length, arch, morphology, local as int);
            assert(growth_bond(start as int, length, arch, morphology, local + 1) == (
                (start + local) as usize,
                (start + local + 1) as usize,
            ));
            assert(bonds@.push(((start + local) as usize, (start + local + 1) as usize)) =~= old(
                bonds,
            )@ + growth_prefix(start as int, length, arch, morphology, local + 1));
        }
        bonds.push((start + local, start + local + 1));
        local += 1;
    }
    let mut cursor = start + backbone;
    let mut last_tip = start + backbone - 1;
    let mut graft: usize = 0;
    let ghost mut j: int = 0;
    let ghost grafts = ceil_div(backbone as int, graft_spacing as int);
    proof {
        lemma_ceil_div_bound(0, graft_spacing as int, backbone as int);
    }
    while graft < backbone
        invariant
            2 <= backbone <= end - start,
            backbone == spec_backbone_length(length, morphology),
            morphology_ok(morphology),
            graft_spacing == morphology.bottlebrush_graft_spacing,
            side_chain == morphology.bottlebrush_side_chain,
            grafts == ceil_div(backbone as int, graft_spacing as int),
            length == end - start,
            arch == PolymerArchitecture::Bottlebrush,
            start + backbone <= cursor <= end,
            last_tip == cursor - 1,
            j >= 0,
            graft == if j < grafts {
                j * graft_spacing
            } else {
                backbone as int
            },
            j <= grafts,
            cursor < end ==> cursor == start + backbone + j * side_chain,
            bonds@ == old(bonds)@ + growth_prefix(start as int, length, arch, morphology, cursor - start - 1),
        decreases backbone - graft,
    {
        proof {
            lemma_ceil_div_bound(j, graft_spacing as int, backbone as int);
        }
        let mut previous = start + graft;
        let mut s: usize = 0;
        while s < side_chain
            invariant
                2 <= backbone <= end - start,
                backbone == spec_backbone_length(length, morphology),
                morphology_ok(morphology),
                graft_spacing == morphology.bottlebrush_graft_spacing,
                side_chain == morphology.bottlebrush_side_chain,
                grafts == ceil_div(backbone as int, graft_spacing as int),
                length == end - start,
                arch == PolymerArchitecture::Bottlebrush,
                start + backbone <= cursor <= end,
                last_tip == cursor - 1,
                0 <= j < grafts,
                graft == j * graft_spacing,
                graft < backbone,
                s <= side_chain,
                cursor < end ==> cursor == start + backbone + j * side_chain + s,
                cursor < end && s == 0 ==> previous == start + graft,
                cursor < end && s > 0 ==> previous == cursor - 1,
                bonds@ == old(bonds)@ + growth_prefix(start as int, length, arch, morphology, cursor - start - 1),
            ensures
                start + backbone <= cursor <= end,
                last_tip == cursor - 1,
                cursor < end ==> s == side_chain && cursor == start + backbone + j * side_chain + s,
                bonds@ == old(bonds)@ + growth_prefix(start as int, length, arch, morphology, cursor - start - 1),
            decreases side_chain - s,
        {
            if cursor >= end {
                break;
            }
            proof {
                let k = cursor - start;
                lemma_div_mod_unique(j, s as int, side_chain as int);
                assert(k - backbone == j * side_chain + s);
                assert(local_parent(arch, morphology, length, k) == previous - start);
                lemma_growth_prefix_push(start as int, length, arch, morphology, k - 1);
                assert(bonds@.push((previous, cursor)) =~= old(bonds)@ + growth_prefix(
                    start as int,
                    length,
                    arch,
                    morphology,
                    k,
                ));
            }
            bonds.push((previous, cursor));
            previous = cursor;
            last_tip = cursor;
            cursor += 1;
            s += 1;
        }
        proof {
            if cursor < end {
                assert(cursor == start + backbone + (j + 1) * side_chain) by (nonlinear_arith)
                    requires
                        cursor == start + backbone + j * side_chain + s,
                        s == side_chain,
                {
                }
            }
            assert((j + 1) * graft_spacing == j * graft_spacing + graft_spacing) by (nonlinear_arith);
            lemma_ceil_div_bound(j + 1, graft_spacing as int, backbone as int);
        }
        if backbone - graft <= graft_spacing {
            graft = backbone;
        } else {
            graft = graft + graft_spacing;
        }
        proof {
            j = j + 1;
        }    }
    proof {
        lemma_ceil_div_bound(j, graft_spacing as int, backbone as int);
        assert(j == grafts);
    }
    while cursor < end
        invariant
            2 <= backbone <= end - start,
            backbone == spec_backbone_length(length, morphology),
            morphology_ok(morphology),
            side_chain == morphology.bottlebrush_side_chain,
            grafts == ceil_div(backbone as int, morphology.bottlebrush_graft_spacing as int),
            length == end - start,
            arch == PolymerArchitecture::Bottlebrush,
            start + backbone <= cursor <= end,
            last_tip == cursor - 1,
            cursor < end ==> cursor >= start + backbone + grafts * side_chain,
            bonds@ == old(bonds)@ + growth_prefix(start as int, length, arch, morphology, cursor - start - 1),
        decreases end - cursor,
    {
        proof {
            let k = cursor - start;
            assert((k - backbone) / (side_chain as int) >= grafts) by (nonlinear_arith)
                requires
                    k - backbone >= grafts * side_chain,
                    side_chain >= 1,
                    grafts >= 0,
            {
            }
            assert(local_parent(arch, morphology, length, k) == k - 1);
            lemma_growth_prefix_push(start as int, length, arch, morphology, k - 1);
            assert(bonds@.push((last_tip, cursor)) =~= old(bonds)@ + growth_prefix(
                start as int,
                length,
                arch,
                morphology,
                k,
            ));
        }
        bonds.push((last_tip, cursor));
        last_tip = cursor;
        cursor += 1;
    }
    proof {
        assert(arch_bonds(start as int, length, arch, morphology) =~= growth_prefix(
            start as int,
            length,
            arch,
            morphology,
            length - 1,
        ));
    }
}


proof fn lemma_dendritic_parent(m: PolymerMorphology, length: int, q: int, b: int, s: int)
    requires
        morphology_ok(m),
        q >= 0,
        0 <= b < m.dendritic_branching,
        0 <= s < m.dendritic_spacer,
    ensures
        local_parent(
            PolymerArchitecture::Dendritic,
            m,
            length,
            1 + (q * m.dendritic_branching + b) * m.dendritic_spacer + s,
        ) == if s > 0 {
            (q * m.dendritic_branching + b) * m.dendritic_spacer + s
        } else {
            q * m.dendritic_spacer
        },
{
    let bb = m.dendritic_branching as int;
    let sp = m.dendritic_spacer as int;
    let a = q * bb + b;
    assert(a >= 0) by (nonlinear_arith)
        requires
            q >= 0,
            bb >= 2,
            b >= 0,
            a == q * bb + b,
    {
    }
    lemma_div_mod_unique(a, s, sp);
    lemma_div_mod_unique(q, b, bb);
    assert(a < bb <==> q == 0) by (nonlinear_arith)
        requires
            q >= 0,
            0 <= b < bb,
            a == q * bb + b,
    {
    }
}

/// Appends the bonds of a dendrimer.
#[verifier::rlimit(80)]
fn push_dendritic_bonds(
    bonds: &mut Vec<(usize, usize)>,
    start: usize,
    end: usize,
    morphology: PolymerMorphology,
)
    requires
        start + 2 <= end,
        morphology_ok(morphology),
    ensures
        final(bonds)@ == old(bonds)@ + arch_bonds(
            start as int,
            end - start,
            PolymerArchitecture::Dendritic,
            morphology,
        ),
{
    let ghost arch = PolymerArchitecture::Dendritic;
    let ghost length = end - start;
    let branching = morphology.dendritic_branching;
    let spacer = morphology.dendritic_spacer;
    let ghost bf = branching as int;
    let ghost sp = spacer as int;
    let mut cursor = start + 1;
    let mut tips: Vec<usize> = Vec::new();
    tips.push(start);
    let ghost mut lo: int = -1;
    proof {
        assert((lo + 1) * bf * sp == 0) by (nonlinear_arith)
            requires
                lo == -1,
        {
        }
        assert((lo + 1) * bf - lo == 1) by (nonlinear_arith)
            requires
                lo == -1,
        {
        }
    }
    while cursor < end
        invariant
            morphology_ok(morphology),
            branching == morphology.dendritic_branching,
            spacer == morphology.dendritic_spacer,
            bf == branching,
            sp == spacer,
            length == end - start,
            start + 2 <= end,
            arch == PolymerArchitecture::Dendritic,
            start + 1 <= cursor <= end,
            lo >= -1,
            bonds@ == old(bonds)@ + growth_prefix(start as int, length, arch, morphology, cursor - start - 1),
            cursor < end ==> cursor == start + 1 + (lo + 1) * bf * sp,
            cursor < end ==> tips@.len() == (lo + 1) * bf - lo,
            cursor < end ==> forall|t: int|
                0 <= t < tips@.len() ==> #[trigger] tips@[t] == start + (lo + 1 + t) * sp,
        decreases end - cursor,
    {
        let ghost c0 = cursor;
        let ghost first = (lo + 1) * bf;
        let mut next_tips: Vec<usize> = Vec::new();
        let mut t: usize = 0;
        proof {
            assert((lo + 1) * bf - lo >= 1) by (nonlinear_arith)
                requires
                    lo >= -1,
                    bf >= 2,
            {
            }
        }
        while t < tips.len()
            invariant
                morphology_ok(morphology),
                branching == morphology.dendritic_branching,
                spacer == morphology.dendritic_spacer,
                bf == branching,
                sp == spacer,
                length == end - start,
                arch == PolymerArchitecture::Dendritic,
                start + 1 <= c0 < end,
                c0 <= cursor <= end,
                t > 0 ==> cursor > c0,
                lo >= -1,
                first == (lo + 1) * bf,
                tips@.len() == (lo + 1) * bf - lo,
                forall|u: int| 0 <= u < tips@.len() ==> #[trigger] tips@[u] == start + (lo + 1 + u) * sp,
                t <= tips@.len(),
                bonds@ == old(bonds)@ + growth_prefix(start as int, length, arch, morphology, cursor - start - 1),
                cursor < end ==> next_tips@.len() == t * bf,
                cursor < end ==> cursor == start + 1 + (first + next_tips@.len()) * sp,
                cursor < end ==> forall|u: int|
                    0 <= u < next_tips@.len() ==> #[trigger] next_tips@[u] == start + (first + u + 1) * sp,
            decreases tips@.len() - t,
        {
            let parent = tips[t];
            let mut branch: usize = 0;
            while branch < branching
                invariant
                    morphology_ok(morphology),
                    branching == morphology.dendritic_branching,
                    spacer == morphology.dendritic_spacer,
                    bf == branching,
                    sp == spacer,
                    length == end - start,
                    arch == PolymerArchitecture::Dendritic,
                    start + 1 <= c0 < end,
                    c0 <= cursor <= end,
                    t > 0 || branch > 0 ==> cursor > c0,
                    lo >= -1,
                    first == (lo + 1) * bf,
                    tips@.len() == (lo + 1) * bf - lo,
                    t < tips@.len(),
                    parent == start + (lo + 1 + t) * sp,
                    branch <= branching,
                    bonds@ == old(bonds)@ + growth_prefix(start as int, length, arch, morphology, cursor - start - 1),
                    cursor < end ==> next_tips@.len() == t * bf + branch,
                    cursor < end ==> cursor == start + 1 + (first + next_tips@.len()) * sp,
                    cursor < end ==> forall|u: int|
                        0 <= u < next_tips@.len() ==> #[trigger] next_tips@[u] == start + (first + u + 1) * sp,
                ensures
                    c0 <= cursor <= end,
                    t > 0 || branch > 0 || cursor >= end ==> cursor > c0,
                    bonds@ == old(bonds)@ + growth_prefix(start as int, length, arch, morphology, cursor - start - 1),
                    cursor < end ==> branch == branching,
                    cursor < end ==> next_tips@.len() == t * bf + branch,
                    cursor < end ==> cursor == start + 1 + (first + next_tips@.len()) * sp,
                    cursor < end ==> forall|u: int|
                        0 <= u < next_tips@.len() ==> #[trigger] next_tips@[u] == start + (first + u + 1) * sp,
                decreases branching - branch,
            {
                if cursor >= end {
                    break;
                }
                let ghost arm = first + next_tips@.len();
                proof {
                    assert(arm == (lo + 1 + t) * bf + branch) by (nonlinear_arith)
                        requires
                            arm == first + next_tips@.len(),
                            first == (lo + 1) * bf,
                            next_tips@.len() == t * bf + branch,
                    {
                    }
                }
                let mut previous = parent;
                let mut s: usize = 0;
                while s < spacer
                    invariant
                        morphology_ok(morphology),
                        branching == morphology.dendritic_branching,
                        spacer == morphology.dendritic_spacer,
                        bf == branching,
                        sp == spacer,
                        length == end - start,
                        arch == PolymerArchitecture::Dendritic,
                        start + 1 <= c0 < end,
                        c0 <= cursor <= end,
                        t > 0 || branch > 0 || s > 0 ==> cursor > c0,
                        lo >= -1,
                        t < tips@.len(),
                        branch < branching,
                        parent == start + (lo + 1 + t) * sp,
                        arm == (lo + 1 + t) * bf + branch,
                        s <= spacer,
                        bonds@ == old(bonds)@ + growth_prefix(start as int, length, arch, morphology, cursor - start - 1),
                        cursor < end ==> cursor == start + 1 + arm * sp + s,
                        cursor < end && s == 0 ==> previous == parent,
                        cursor < end && s > 0 ==> previous == cursor - 1,
                    ensures
                        c0 <= cursor <= end,
                        t > 0 || branch > 0 || s > 0 || cursor >= end ==> cursor > c0,
                        bonds@ == old(bonds)@ + growth_prefix(start as int, length, arch, morphology, cursor - start - 1),
                        cursor < end ==> s == spacer && cursor == start + 1 + arm * sp + s && previous == cursor - 1,
                    decreases spacer - s,
                {
                    if cursor >= end {
                        break;
                    }
                    proof {
                        let k = cursor - start;
                        lemma_dendritic_parent(morphology, length, lo + 1 + t, branch as int, s as int);
                        assert(k == 1 + ((lo + 1 + t) * bf + branch) * sp + s);
                        assert(local_parent(arch, morphology, length, k) == previous - start);
                        lemma_growth_prefix_push(start as int, length, arch, morphology, k - 1);
                        assert(bonds@.push((previous, cursor)) =~= old(bonds)@ + growth_prefix(
                            start as int,
                            length,
                            arch,
                            morphology,
                            k,
                        ));
                    }
                    bonds.push((previous, cursor));
                    previous = cursor;
                    cursor += 1;
                    s += 1;
                }
                proof {
                    if cursor < end {
                        assert(previous == start + (arm + 1) * sp) by (nonlinear_arith)
                            requires
                                previous == cursor - 1,
                                cursor == start + 1 + arm * sp + s,
                                s == sp,
                        {
                        }
                        assert(cursor == start + 1 + (first + next_tips@.len() + 1) * sp) by (nonlinear_arith)
                            requires
                                cursor == start + 1 + arm * sp + s,
                                s == sp,
                                arm == first + next_tips@.len(),
                        {
                        }
                    }
                }
                next_tips.push(previous);
                branch += 1;
            }
            proof {
                if cursor < end {
                    assert(next_tips@.len() == (t + 1) * bf) by (nonlinear_arith)
                        requires
                            next_tips@.len() == t * bf + branch,
                            branch == bf,
                    {
                    }
                }
            }
            t += 1;
        }
        proof {
            if cursor < end {
                let nl = first;
                assert(next_tips@.len() == (nl + 1) * bf - nl) by (nonlinear_arith)
                    requires
                        next_tips@.len() == t * bf,
                        t == (lo + 1) * bf - lo,
                        nl == (lo + 1) * bf,
                {
                }
                assert(cursor == start + 1 + (nl + 1) * bf * sp) by (nonlinear_arith)
                    requires
                        cursor == start + 1 + (first + next_tips@.len()) * sp,
                        next_tips@.len() == (nl + 1) * bf - nl,
                        first == nl,
                {
                }
                assert forall|u: int| 0 <= u < next_tips@.len() implies #[trigger] next_tips@[u] == start + (nl
                    + 1 + u) * sp by {
                    assert(next_tips@[u] == start + (first + u + 1) * sp);
                }
            }
            lo = first;
        }
        tips = next_tips;
    }
    proof {
        assert(arch_bonds(start as int, length, arch, morphology) =~= growth_prefix(
            start as int,
            length,
            arch,
            morphology,
            length - 1,
        ));
    }
}


/// First bead of chain `c`: the total length of the chains before it.
pub open spec fn chain_start(lengths: Seq<usize>, c: int) -> int
    decreases c,
{
    if c <= 0 {
        0
    } else {
        chain_start(lengths, c - 1) + lengths[c - 1]
    }
}

/// A request that passes its checks has a bead count that fits in memory; a request
/// refused by a check needs no such bound.
pub open spec fn buildable(lengths: Seq<usize>, box_ok: bool, m: PolymerMorphology) -> bool {
    lengths_ok(lengths) && box_ok && morphology_ok(m) ==> total_beads(lengths) <= usize::MAX
}

/// Number of beads of the ensemble.
pub open spec fn total_beads(lengths: Seq<usize>) -> int {
    chain_start(lengths, lengths.len() as int)
}

/// The bonds of the first `c` chains, chain after chain, each in the order it is grown.
pub open spec fn raw_bonds(
    lengths: Seq<usize>,
    arch: PolymerArchitecture,
    m: PolymerMorphology,
    c: int,
) -> Seq<(usize, usize)>
    decreases c,
{
    if c <= 0 {
        Seq::empty()
    } else {
        raw_bonds(lengths, arch, m, c - 1) + arch_bonds(
            chain_start(lengths, c - 1),
            lengths[c - 1] as int,
            arch,
            m,
        )
    }
}

proof fn lemma_chain_start_monotone(lengths: Seq<usize>, a: int, b: int)
    requires
        0 <= a <= b <= lengths.len(),
    ensures
        chain_start(lengths, a) <= chain_start(lengths, b),
        chain_start(lengths, a) >= 0,
    decreases b - a,
{
    if a < b {
        lemma_chain_start_monotone(lengths, a, b - 1);
    } else {
        lemma_chain_start_nonneg(lengths, a);
    }
}

proof fn lemma_chain_start_nonneg(lengths: Seq<usize>, a: int)
    requires
        0 <= a <= lengths.len(),
    ensures
        chain_start(lengths, a) >= 0,
    decreases a,
{
    if a > 0 {
        lemma_chain_start_nonneg(lengths, a - 1);
    }
}

/// The per-chain tables of an ensemble: bead ranges, the chain and local index of every bead,
/// all bonds in growth order, and the bonds of each chain.
struct ChainTables {
    chain_ranges: Vec<core::ops::Range<usize>>,
    atom_to_chain: Vec<usize>,
    bead_within_chain: Vec<usize>,
    bonds: Vec<(usize, usize)>,
    chain_bonds: Vec<Vec<(usize, usize)>>,
}

fn add_architecture_bonds(
    bonds: &mut Vec<(usize, usize)>,
    range: core::ops::Range<usize>,
    architecture: PolymerArchitecture,
    morphology: PolymerMorphology,
)
    requires
        range.start + 2 <= range.end,
        morphology_ok(morphology),
    ensures
        final(bonds)@ == old(bonds)@ + arch_bonds(
            range.start as int,
            range.end - range.start,
            architecture,
            morphology,
        ),
{
    match architecture {
        PolymerArchitecture::Linear => {
            push_linear_bonds(bonds, range.start, range.end, false);
            proof {
                assert(arch_bonds(range.start as int, range.end - range.start, architecture, morphology) =~= arch_bonds(
                    range.start as int,
                    range.end - range.start,
                    architecture,
                    PolymerMorphology {
                        dendritic_branching: 2,
                        dendritic_spacer: 2,
                        bottlebrush_graft_spacing: 2,
                        bottlebrush_side_chain: 3,
                    },
                ));
            }
        },
        PolymerArchitecture::Ring => {
            push_linear_bonds(bonds, range.start, range.end, true);
            proof {
                assert(arch_bonds(range.start as int, range.end - range.start, architecture, morphology) =~= arch_bonds(
                    range.start as int,
                    range.end - range.start,
                    architecture,
                    PolymerMorphology {
                        dendritic_branching: 2,
                        dendritic_spacer: 2,
                        bottlebrush_graft_spacing: 2,
                        bottlebrush_side_chain: 3,
                    },
                ));
            }
        },
        PolymerArchitecture::Dendritic => push_dendritic_bonds(bonds, range.start, range.end, morphology),
        PolymerArchitecture::Bottlebrush => push_bottlebrush_bonds(
            bonds,
            range.start,
            range.end,
            morphology,
        ),
    }
}

fn extend_chain(atoms: &mut Vec<usize>, beads: &mut Vec<usize>, chain: usize, length: usize)
    requires
        old(atoms)@.len() == old(beads)@.len(),
        old(atoms)@.len() + length <= usize::MAX,
    ensures
        final(atoms)@ == old(atoms)@ + Seq::new(length as nat, |i: int| chain),
        final(beads)@ == old(beads)@ + Seq::new(length as nat, |i: int| i as usize),
{
    let mut local: usize = 0;
    while local < length
        invariant
            local <= length,
            atoms@ == old(atoms)@ + Seq::new(local as nat, |i: int| chain),
            beads@ == old(beads)@ + Seq::new(local as nat, |i: int| i as usize),
        decreases length - local,
    {
        atoms.push(chain);
        beads.push(local);
        proof {
            assert(atoms@ =~= old(atoms)@ + Seq::new((local + 1) as nat, |i: int| chain));
            assert(beads@ =~= old(beads)@ + Seq::new((local + 1) as nat, |i: int| i as usize));
        }
        local += 1;
    }
}

fn build_chains(
    chain_lengths: &Vec<usize>,
    architecture: PolymerArchitecture,
    morphology: PolymerMorphology,
) -> (t: ChainTables)
    requires
        forall|c: int| 0 <= c < chain_lengths@.len() ==> #[trigger] chain_lengths@[c] >= 2,
        total_beads(chain_lengths@) <= usize::MAX,
        morphology_ok(morphology),
    ensures
        t.chain_ranges@.len() == chain_lengths@.len(),
        forall|c: int|
            0 <= c < chain_lengths@.len() ==> (#[trigger] t.chain_ranges@[c]).start == chain_start(
                chain_lengths@,
                c,
            ) && t.chain_ranges@[c].end == chain_start(chain_lengths@, c + 1),
        t.atom_to_chain@.len() == total_beads(chain_lengths@),
        t.bead_within_chain@.len() == total_beads(chain_lengths@),
        forall|c: int, a: int|
            #![trigger t.atom_to_chain@[a], chain_start(chain_lengths@, c)]
            0 <= c < chain_lengths@.len() && chain_start(chain_lengths@, c) <= a < chain_start(
                chain_lengths@,
                c + 1,
            ) ==> t.atom_to_chain@[a] == c && t.bead_within_chain@[a] == a
                - chain_start(chain_lengths@, c),
        t.bonds@ == raw_bonds(chain_lengths@, architecture, morphology, chain_lengths@.len() as int),
        t.chain_bonds@.len() == chain_lengths@.len(),
        forall|c: int|
            0 <= c < chain_lengths@.len() ==> (#[trigger] t.chain_bonds@[c])@ == arch_bonds(
                chain_start(chain_lengths@, c),
                chain_lengths@[c] as int,
                architecture,
                morphology,
            ),
{
    let ghost lengths = chain_lengths@;
    let mut chain_ranges: Vec<core::ops::Range<usize>> = Vec::new();
    let mut atom_to_chain: Vec<usize> = Vec::new();
    let mut bead_within_chain: Vec<usize> = Vec::new();
    let mut bonds: Vec<(usize, usize)> = Vec::new();
    let mut chain_bonds: Vec<Vec<(usize, usize)>> = Vec::new();
    let mut offset: usize = 0;
    let mut chain: usize = 0;
    while chain < chain_lengths.len()
        invariant
            lengths == chain_lengths@,
            forall|c: int| 0 <= c < lengths.len() ==> #[trigger] lengths[c] >= 2,
            total_beads(lengths) <= usize::MAX,
            morphology_ok(morphology),
            chain <= lengths.len(),
            offset == chain_start(lengths, chain as int),
            chain_ranges@.len() == chain,
            forall|c: int|
                0 <= c < chain ==> (#[trigger] chain_ranges@[c]).start == chain_start(lengths, c)
                    && chain_ranges@[c].end == chain_start(lengths, c + 1),
            atom_to_chain@.len() == offset,
            bead_within_chain@.len() == offset,
            forall|a: int|
                0 <= a < offset ==> #[trigger] atom_to_chain@[a] < chain && chain_start(
                    lengths,
                    atom_to_chain@[a] as int,
                ) <= a < chain_start(lengths, atom_to_chain@[a] + 1) && bead_within_chain@[a] == a
                    - chain_start(lengths, atom_to_chain@[a] as int),
            bonds@ == raw_bonds(lengths, architecture, morphology, chain as int),
            chain_bonds@.len() == chain,
            forall|c: int|
                0 <= c < chain ==> (#[trigger] chain_bonds@[c])@ == arch_bonds(
                    chain_start(lengths, c),
                    lengths[c] as int,
                    architecture,
                    morphology,
                ),
        decreases lengths.len() - chain,
    {
        let length = chain_lengths[chain];
        proof {
            lemma_chain_start_monotone(lengths, chain + 1, lengths.len() as int);
        }
        let end = offset + length;
        chain_ranges.push(offset..end);
        let ghost prev_atoms = atom_to_chain@;
        let ghost prev_beads = bead_within_chain@;
        extend_chain(&mut atom_to_chain, &mut bead_within_chain, chain, length);
        proof {
            assert forall|a: int| 0 <= a < end implies #[trigger] atom_to_chain@[a] < chain + 1
                && chain_start(lengths, atom_to_chain@[a] as int) <= a < chain_start(
                lengths,
                atom_to_chain@[a] + 1,
            ) && bead_within_chain@[a] == a - chain_start(lengths, atom_to_chain@[a] as int) by {
                if a < offset {
                    assert(atom_to_chain@[a] == prev_atoms[a]);
                    assert(bead_within_chain@[a] == prev_beads[a]);
                }
            }
        }
        let mut own: Vec<(usize, usize)> = Vec::new();
        add_architecture_bonds(&mut own, offset..end, architecture, morphology);
        let mut k: usize = 0;
        let ghost before = bonds@;
        while k < own.len()
            invariant
                k <= own@.len(),
                bonds@ == before + own@.take(k as int),
            decreases own@.len() - k,
        {
            proof {
                assert(own@.take(k + 1) =~= own@.take(k as int).push(own@[k as int]));
            }
            bonds.push(own[k]);
            k += 1;
        }
        proof {
            assert(own@.take(own@.len() as int) =~= own@);
            assert(own@ =~= Seq::empty() + arch_bonds(offset as int, length as int, architecture, morphology));
        }
        chain_bonds.push(own);
        offset = end;
        chain += 1;
    }
    proof {
        assert(chain == lengths.len());
        assert(atom_to_chain@.len() == chain_start(lengths, lengths.len() as int));
        assert forall|c: int, a: int|
            #![trigger atom_to_chain@[a], chain_start(lengths, c)]
            0 <= c < lengths.len() && chain_start(lengths, c) <= a < chain_start(lengths, c + 1) implies atom_to_chain@[a]
                == c && bead_within_chain@[a] == a - chain_start(lengths, c) by {
            lemma_chain_start_monotone(lengths, c + 1, lengths.len() as int);
            lemma_chain_start_nonneg(lengths, c);
            assert(0 <= a < atom_to_chain@.len());
            let d = atom_to_chain@[a] as int;
            assert(d < lengths.len());
            if d < c {
                lemma_chain_start_monotone(lengths, d + 1, c);
            } else if d > c {
                lemma_chain_start_monotone(lengths, c + 1, d);
            }
        }
    }
    ChainTables { chain_ranges, atom_to_chain, bead_within_chain, bonds, chain_bonds }
}


/// Tuple order on bonds: by first bead, then second bead.
pub open spec fn pair_lt(a: (usize, usize), b: (usize, usize)) -> bool {
    a.0 < b.0 || (a.0 == b.0 && a.1 < b.1)
}

/// The bonds are in ascending tuple order.
pub open spec fn pairs_sorted(s: Seq<(usize, usize)>) -> bool {
    forall|i: int, j: int| 0 <= i < j < s.len() ==> pair_lt(s[i], s[j]) || s[i] == s[j]
}

/// The bonds are in strictly ascending tuple order: sorted and without repeats.
pub open spec fn pairs_strictly_sorted(s: Seq<(usize, usize)>) -> bool {
    forall|i: int, j: int| 0 <= i < j < s.len() ==> #[trigger] pair_lt(s[i], s[j])
}

/// `<[(usize, usize)]>::sort_unstable` on the bond list. std documents that it sorts the
/// slice in ascending order (tuples compare lexicographically) and only rearranges it: the
/// contract states that the result is ascending and holds the same elements with the same
/// multiplicities.
#[verifier::external_body]
fn sort_pairs(v: &mut Vec<(usize, usize)>)
    ensures
        final(v)@.to_multiset() == old(v)@.to_multiset(),
        pairs_sorted(final(v)@),
{
    v.sort_unstable();
}

/// Drops repeated neighbours of an ascending list.
fn dedup_sorted(v: &Vec<(usize, usize)>) -> (out: Vec<(usize, usize)>)
    requires
        pairs_sorted(v@),
    ensures
        pairs_strictly_sorted(out@),
        forall|e: (usize, usize)| #[trigger] out@.contains(e) <==> v@.contains(e),
{
    let mut out: Vec<(usize, usize)> = Vec::new();
    let mut k: usize = 0;
    while k < v.len()
        invariant
            k <= v@.len(),
            pairs_sorted(v@),
            pairs_strictly_sorted(out@),
            k > 0 ==> out@.len() > 0 && out@.last() == v@[k - 1],
            k == 0 ==> out@.len() == 0,
            forall|e: (usize, usize)| #[trigger] out@.contains(e) <==> v@.take(k as int).contains(e),
        decreases v@.len() - k,
    {
        let item = v[k];
        let keep = if out.len() == 0 {
            true
        } else {
            let last = out[out.len() - 1];
            last.0 != item.0 || last.1 != item.1
        };
        let ghost before = out@;
        if keep {
            proof {
                if out@.len() > 0 {
                    assert(pair_lt(out@.last(), item) || out@.last() == item);
                }
                assert forall|i: int| 0 <= i < out@.len() implies #[trigger] pair_lt(out@[i], item) by {
                    if i < out@.len() - 1 {
                        assert(pair_lt(out@[i], out@.last()));
                    }
                }
            }
            out.push(item);
        }
        proof {
            assert(v@.take(k + 1) =~= v@.take(k as int).push(item));
            let t1 = v@.take(k + 1);
            let t0 = v@.take(k as int);
            assert forall|e: (usize, usize)| #[trigger] out@.contains(e) implies t1.contains(e) by {
                let w = choose|w: int| 0 <= w < out@.len() && out@[w] == e;
                if w < before.len() {
                    assert(before[w] == e);
                    assert(before.contains(e));
                    assert(t0.contains(e));
                    let z = choose|z: int| 0 <= z < t0.len() && t0[z] == e;
                    assert(t1[z] == e);
                } else {
                    assert(e == item);
                    assert(t1[k as int] == e);
                }
            }
            assert forall|e: (usize, usize)| #[trigger] t1.contains(e) implies out@.contains(e) by {
                let w = choose|w: int| 0 <= w < t1.len() && t1[w] == e;
                if w < k {
                    assert(t0[w] == e);
                    assert(t0.contains(e));
                    assert(before.contains(e));
                    let z = choose|z: int| 0 <= z < before.len() && before[z] == e;
                    assert(out@[z] == e);
                } else {
                    assert(e == item);
                    assert(out@[out@.len() - 1] == item);
                }
            }
        }
        k += 1;
    }
    proof {
        assert(v@.take(v@.len() as int) =~= v@);
    }
    out
}


/// Neighbours of bead `x` among the first `n` bonds, in bond order: each bond (a, b) gives `a`
/// the neighbour `b` and then `b` the neighbour `a`.
pub open spec fn nbrs_upto(bonds: Seq<(usize, usize)>, x: int, n: int) -> Seq<usize>
    decreases n,
{
    if n <= 0 {
        Seq::empty()
    } else {
        let prev = nbrs_upto(bonds, x, n - 1);
        let e = bonds[n - 1];
        let with_first = if e.0 == x {
            prev.push(e.1)
        } else {
            prev
        };
        if e.1 == x {
            with_first.push(e.0)
        } else {
            with_first
        }
    }
}

/// Neighbours of bead `x` in the bond list.
pub open spec fn nbrs(bonds: Seq<(usize, usize)>, x: int) -> Seq<usize> {
    nbrs_upto(bonds, x, bonds.len() as int)
}

/// Whether every bond joins two beads below `n`.
pub open spec fn bonds_within(bonds: Seq<(usize, usize)>, n: int) -> bool {
    forall|i: int| 0 <= i < bonds.len() ==> (#[trigger] bonds[i]).0 < n && bonds[i].1 < n
}

fn build_adjacency(bonds: &Vec<(usize, usize)>, atom_count: usize) -> (adj: Vec<Vec<usize>>)
    requires
        bonds_within(bonds@, atom_count as int),
    ensures
        adj@.len() == atom_count,
        forall|x: int| 0 <= x < atom_count ==> (#[trigger] adj@[x])@ == nbrs(bonds@, x),
{
    let mut adj: Vec<Vec<usize>> = Vec::new();
    let mut a: usize = 0;
    while a < atom_count
        invariant
            a <= atom_count,
            adj@.len() == a,
            forall|x: int| 0 <= x < a ==> (#[trigger] adj@[x])@ == nbrs_upto(bonds@, x, 0),
        decreases atom_count - a,
    {
        adj.push(Vec::new());
        a += 1;
    }
    let mut k: usize = 0;
    while k < bonds.len()
        invariant
            k <= bonds@.len(),
            bonds_within(bonds@, atom_count as int),
            adj@.len() == atom_count,
            forall|x: int| 0 <= x < atom_count ==> (#[trigger] adj@[x])@ == nbrs_upto(bonds@, x, k as int),
        decreases bonds@.len() - k,
    {
        let (first, second) = bonds[k];
        proof {
            assert(bonds@[k as int].0 < atom_count && bonds@[k as int].1 < atom_count);
        }
        let mut row = adj[first].clone();
        proof {
            assert(row@ =~= adj@[first as int]@);
        }
        row.push(second);
        adj.set(first, row);
        let mut back = adj[second].clone();
        proof {
            assert(back@ =~= adj@[second as int]@);
        }
        back.push(first);
        adj.set(second, back);
        proof {
            assert forall|x: int| 0 <= x < atom_count implies (#[trigger] adj@[x])@ == nbrs_upto(
                bonds@,
                x,
                k + 1,
            ) by {}
        }
        k += 1;
    }
    adj
}

/// The largest entry of `s` below `x`, if any.
pub open spec fn max_below(s: Seq<usize>, x: int) -> Option<usize>
    decreases s.len(),
{
    if s.len() == 0 {
        None
    } else {
        let rest = max_below(s.drop_last(), x);
        if s.last() < x && (rest is None || rest->0 < s.last()) {
            Some(s.last())
        } else {
            rest
        }
    }
}

fn degrees_and_parents(adj: &Vec<Vec<usize>>) -> (r: (Vec<usize>, Vec<Option<usize>>))
    ensures
        r.0@.len() == adj@.len(),
        r.1@.len() == adj@.len(),
        forall|x: int| 0 <= x < adj@.len() ==> #[trigger] r.0@[x] == adj@[x]@.len(),
        forall|x: int| 0 <= x < adj@.len() ==> #[trigger] r.1@[x] == max_below(adj@[x]@, x),
{
    let mut degrees: Vec<usize> = Vec::new();
    let mut parents: Vec<Option<usize>> = Vec::new();
    let mut atom: usize = 0;
    while atom < adj.len()
        invariant
            atom <= adj@.len(),
            degrees@.len() == atom,
            parents@.len() == atom,
            forall|x: int| 0 <= x < atom ==> #[trigger] degrees@[x] == adj@[x]@.len(),
            forall|x: int| 0 <= x < atom ==> #[trigger] parents@[x] == max_below(adj@[x]@, x),
        decreases adj@.len() - atom,
    {
        let row = &adj[atom];
        let mut best: Option<usize> = None;
        let mut j: usize = 0;
        while j < row.len()
            invariant
                j <= row@.len(),
                best == max_below(row@.take(j as int), atom as int),
            decreases row@.len() - j,
        {
            proof {
                assert(row@.take(j + 1).drop_last() =~= row@.take(j as int));
            }
            let other = row[j];
            if other < atom {
                match best {
                    None => {
                        best = Some(other);
                    },
                    Some(b) => {
                        if b < other {
                            best = Some(other);
                        }
                    },
                }
            }
            j += 1;
        }
        proof {
            assert(row@.take(row@.len() as int) =~= row@);
        }
        degrees.push(row.len());
        parents.push(best);
        atom += 1;
    }
    (degrees, parents)
}


/// The angles centred on bead `c` with neighbour list `n`, for the first `l` left neighbours:
/// left neighbour `n[i]` pairs with every later neighbour `n[j]`, j > i.
pub open spec fn center_angles(n: Seq<usize>, c: int, l: int) -> Seq<(usize, usize, usize)>
    decreases l,
{
    if l <= 0 {
        Seq::empty()
    } else {
        center_angles(n, c, l - 1) + Seq::new(
            (n.len() - l) as nat,
            |j: int| (n[l - 1], c as usize, n[l + j]),
        )
    }
}

/// The angles of the first `c` centres, centre after centre.
pub open spec fn angles_upto(adj: Seq<Seq<usize>>, c: int) -> Seq<(usize, usize, usize)>
    decreases c,
{
    if c <= 0 {
        Seq::empty()
    } else {
        angles_upto(adj, c - 1) + center_angles(adj[c - 1], c - 1, adj[c - 1].len() as int)
    }
}

/// Deep view of an adjacency table.
pub open spec fn adj_view(adj: Seq<Vec<usize>>) -> Seq<Seq<usize>> {
    Seq::new(adj.len(), |i: int| adj[i]@)
}

pub fn build_angles(adjacency: &Vec<Vec<usize>>) -> (angles: Vec<(usize, usize, usize)>)
    ensures
        angles@ == angles_upto(adj_view(adjacency@), adjacency@.len() as int),
{
    let ghost view = adj_view(adjacency@);
    let mut angles: Vec<(usize, usize, usize)> = Vec::new();
    let mut center: usize = 0;
    while center < adjacency.len()
        invariant
            center <= adjacency@.len(),
            view == adj_view(adjacency@),
            angles@ == angles_upto(view, center as int),
        decreases adjacency@.len() - center,
    {
        let neighbours = &adjacency[center];
        let ghost base = angles@;
        proof {
            assert(view[center as int] == neighbours@);
        }
        let mut left: usize = 0;
        while left < neighbours.len()
            invariant
                left <= neighbours@.len(),
                angles@ == base + center_angles(neighbours@, center as int, left as int),
            decreases neighbours@.len() - left,
        {
            let ghost row_base = angles@;
            let mut right = left + 1;
            while right < neighbours.len()
                invariant
                    left < right <= neighbours@.len(),
                    angles@ == row_base + Seq::new(
                        (right - left - 1) as nat,
                        |j: int| (neighbours@[left as int], center, neighbours@[left + 1 + j]),
                    ),
                decreases neighbours@.len() - right,
            {
                angles.push((neighbours[left], center, neighbours[right]));
                proof {
                    assert(angles@ =~= row_base + Seq::new(
                        (right + 1 - left - 1) as nat,
                        |j: int| (neighbours@[left as int], center, neighbours@[left + 1 + j]),
                    ));
                }
                right += 1;
            }
            proof {
                assert(angles@ =~= base + center_angles(neighbours@, center as int, left + 1));
            }
            left += 1;
        }
        proof {
            assert(angles@ =~= angles_upto(view, center + 1));
        }
        center += 1;
    }
    angles
}

/// `n` without the entries equal to `skip`.
pub open spec fn without(n: Seq<usize>, skip: usize) -> Seq<usize>
    decreases n.len(),
{
    if n.len() == 0 {
        Seq::empty()
    } else if n.last() == skip {
        without(n.drop_last(), skip)
    } else {
        without(n.drop_last(), skip).push(n.last())
    }
}

/// The dihedrals around the bond (s, t) whose first bead comes from `firsts`: every first
/// bead pairs with every fourth bead of `fourths`.
pub open spec fn bond_dihedrals(
    firsts: Seq<usize>,
    fourths: Seq<usize>,
    s: usize,
    t: usize,
) -> Seq<(usize, usize, usize, usize)>
    decreases firsts.len(),
{
    if firsts.len() == 0 {
        Seq::empty()
    } else {
        bond_dihedrals(firsts.drop_last(), fourths, s, t) + Seq::new(
            fourths.len(),
            |j: int| (firsts.last(), s, t, fourths[j]),
        )
    }
}

/// The dihedrals of the first `k` bonds: around bond (s, t), every neighbour of `s` other
/// than `t` pairs with every neighbour of `t` other than `s`.
pub open spec fn dihedrals_upto(
    bonds: Seq<(usize, usize)>,
    adj: Seq<Seq<usize>>,
    k: int,
) -> Seq<(usize, usize, usize, usize)>
    decreases k,
{
    if k <= 0 {
        Seq::empty()
    } else {
        let (s, t) = bonds[k - 1];
        dihedrals_upto(bonds, adj, k - 1) + bond_dihedrals(
            without(adj[s as int], t),
            without(adj[t as int], s),
            s,
            t,
        )
    }
}

pub fn build_dihedrals(bonds: &[(usize, usize)], adjacency: &Vec<Vec<usize>>) -> (dihedrals: Vec<
    (usize, usize, usize, usize),
>)
    requires
        bonds_within(bonds@, adjacency@.len() as int),
    ensures
        dihedrals@ == dihedrals_upto(bonds@, adj_view(adjacency@), bonds@.len() as int),
{
    let ghost view = adj_view(adjacency@);
    let mut dihedrals: Vec<(usize, usize, usize, usize)> = Vec::new();
    let mut k: usize = 0;
    while k < bonds.len()
        invariant
            k <= bonds@.len(),
            bonds_within(bonds@, adjacency@.len() as int),
            view == adj_view(adjacency@),
            dihedrals@ == dihedrals_upto(bonds@, view, k as int),
        decreases bonds@.len() - k,
    {
        let (second, third) = bonds[k];
        proof {
            assert(bonds@[k as int].0 < adjacency@.len() && bonds@[k as int].1 < adjacency@.len());
        }
        let around_second = &adjacency[second];
        let around_third = &adjacency[third];
        proof {
            assert(view[second as int] == around_second@);
            assert(view[third as int] == around_third@);
        }
        let ghost base = dihedrals@;
        let mut i: usize = 0;
        while i < around_second.len()
            invariant
                i <= around_second@.len(),
                dihedrals@ == base + bond_dihedrals(
                    without(around_second@.take(i as int), third),
                    without(around_third@, second),
                    second,
                    third,
                ),
            decreases around_second@.len() - i,
        {
            let first = around_second[i];
            proof {
                assert(around_second@.take(i + 1).drop_last() =~= around_second@.take(i as int));
                assert(around_second@.take(i + 1).last() == first);
            }
            if first != third {
                let ghost row_base = dihedrals@;
                let mut j: usize = 0;
                while j < around_third.len()
                    invariant
                        j <= around_third@.len(),
                        dihedrals@ == row_base + Seq::new(
                            without(around_third@.take(j as int), second).len(),
                            |q: int| (first, second, third, without(around_third@.take(j as int), second)[q]),
                        ),
                    decreases around_third@.len() - j,
                {
                    let fourth = around_third[j];
                    proof {
                        assert(around_third@.take(j + 1).drop_last() =~= around_third@.take(j as int));
                        assert(around_third@.take(j + 1).last() == fourth);
                    }
                    if fourth != second {
                        dihedrals.push((first, second, third, fourth));
                    }
                    proof {
                        assert(dihedrals@ =~= row_base + Seq::new(
                            without(around_third@.take(j + 1), second).len(),
                            |q: int| (first, second, third, without(around_third@.take(j + 1), second)[q]),
                        ));
                    }
                    j += 1;
                }
                proof {
                    assert(around_third@.take(around_third@.len() as int) =~= around_third@);
                }
            }
            proof {
                let prev_firsts = without(around_second@.take(i as int), third);
                let next_firsts = without(around_second@.take(i + 1), third);
                let fourths = without(around_third@, second);
                if first != third {
                    assert(next_firsts == prev_firsts.push(first));
                    assert(next_firsts.drop_last() =~= prev_firsts);
                    assert(bond_dihedrals(next_firsts, fourths, second, third) == bond_dihedrals(
                        prev_firsts,
                        fourths,
                        second,
                        third,
                    ) + Seq::new(fourths.len(), |q: int| (first, second, third, fourths[q])));
                } else {
                    assert(next_firsts == prev_firsts);
                }
                assert(dihedrals@ =~= base + bond_dihedrals(
                    without(around_second@.take(i + 1), third),
                    without(around_third@, second),
                    second,
                    third,
                ));
            }
            i += 1;
        }
        proof {
            assert(around_second@.take(around_second@.len() as int) =~= around_second@);
            assert(dihedrals@ =~= dihedrals_upto(bonds@, view, k + 1));
        }
        k += 1;
    }
    dihedrals
}


/// Every bead after the first of its chain grows from an earlier bead of the same chain.
pub proof fn lemma_local_parent_before(
    arch: PolymerArchitecture,
    m: PolymerMorphology,
    length: int,
    k: int,
)
    requires
        morphology_ok(m),
        1 <= k < length,
    ensures
        0 <= local_parent(arch, m, length, k) < k,
{
    match arch {
        PolymerArchitecture::Dendritic => {
            let s = m.dendritic_spacer as int;
            let b = m.dendritic_branching as int;
            let a = (k - 1) / s;
            assert(a >= 0 && a * s <= k - 1) by (nonlinear_arith)
                requires
                    s >= 1,
                    k >= 1,
                    a == (k - 1) / s,
            {
            }
            if (k - 1) % s == 0 && a >= b {
                assert(0 <= (a / b) * s < k) by (nonlinear_arith)
                    requires
                        b >= 2,
                        s >= 1,
                        a >= b,
                        a * s <= k - 1,
                {
                }
            }
        },
        PolymerArchitecture::Bottlebrush => {
            let bb = spec_backbone_length(length, m);
            let sc = m.bottlebrush_side_chain as int;
            let g = m.bottlebrush_graft_spacing as int;
            lemma_longest_fit_range(length, length, m);
            if k >= bb {
                let j = (k - bb) / sc;
                assert(j >= 0) by (nonlinear_arith)
                    requires
                        sc >= 1,
                        k >= bb,
                        j == (k - bb) / sc,
                {
                }
                if j < ceil_div(bb, g) {
                    lemma_ceil_div_bound(j, g, bb);
                    assert(j * g >= 0) by (nonlinear_arith)
                        requires
                            j >= 0,
                            g >= 1,
                    {
                    }
                }
            }
        },
        _ => {},
    }
}

/// Neighbour table of the bond list for beads below `n`.
pub open spec fn adj_spec(bonds: Seq<(usize, usize)>, n: int) -> Seq<Seq<usize>> {
    Seq::new(n as nat, |x: int| nbrs(bonds, x))
}

/// The bonds of the ensemble: the bond list of every chain, in ascending order and without
/// repeats.
pub open spec fn sorted_bonds_of(bonds: Seq<(usize, usize)>, raw: Seq<(usize, usize)>) -> bool {
    &&& pairs_strictly_sorted(bonds)
    &&& forall|e: (usize, usize)| #[trigger] bonds.contains(e) <==> raw.contains(e)
}

/// Chain lengths the topology accepts: at least one chain, every chain of at least two beads.
pub open spec fn lengths_ok(lengths: Seq<usize>) -> bool {
    lengths.len() > 0 && forall|c: int| 0 <= c < lengths.len() ==> #[trigger] lengths[c] >= 2
}

proof fn lemma_raw_bonds_within(
    lengths: Seq<usize>,
    arch: PolymerArchitecture,
    m: PolymerMorphology,
    c: int,
)
    requires
        0 <= c <= lengths.len(),
        forall|q: int| 0 <= q < lengths.len() ==> #[trigger] lengths[q] >= 2,
        morphology_ok(m),
    ensures
        bonds_within(raw_bonds(lengths, arch, m, c), chain_start(lengths, c)),
    decreases c,
{
    if c > 0 {
        lemma_raw_bonds_within(lengths, arch, m, c - 1);
        lemma_chain_start_nonneg(lengths, c - 1);
        let start = chain_start(lengths, c - 1);
        let len = lengths[c - 1] as int;
        let prev = raw_bonds(lengths, arch, m, c - 1);
        let own = arch_bonds(start, len, arch, m);
        let all = raw_bonds(lengths, arch, m, c);
        assert forall|i: int| 0 <= i < all.len() implies (#[trigger] all[i]).0 < chain_start(lengths, c)
            && all[i].1 < chain_start(lengths, c) by {
            if i < prev.len() {
                assert(all[i] == prev[i]);
            } else {
                let w = i - prev.len();
                assert(all[i] == own[w]);
                if w < len - 1 {
                    lemma_local_parent_before(arch, m, len, w + 1);
                }
            }
        }
    }
}

/// Number of bonds of a chain of `len` beads: one per bead after the first, and one more
/// closing a ring of more than two beads.
pub open spec fn chain_bond_count(len: int, arch: PolymerArchitecture) -> int {
    len - 1 + if arch == PolymerArchitecture::Ring && len > 2 {
        1int
    } else {
        0int
    }
}

/// Number of bonds of the first `c` chains.
pub open spec fn bond_count(lengths: Seq<usize>, arch: PolymerArchitecture, c: int) -> int
    decreases c,
{
    if c <= 0 {
        0
    } else {
        bond_count(lengths, arch, c - 1) + chain_bond_count(lengths[c - 1] as int, arch)
    }
}

proof fn lemma_raw_bonds_len(
    lengths: Seq<usize>,
    arch: PolymerArchitecture,
    m: PolymerMorphology,
    c: int,
)
    requires
        0 <= c <= lengths.len(),
        forall|q: int| 0 <= q < lengths.len() ==> #[trigger] lengths[q] >= 2,
    ensures
        raw_bonds(lengths, arch, m, c).len() == bond_count(lengths, arch, c),
    decreases c,
{
    if c > 0 {
        lemma_raw_bonds_len(lengths, arch, m, c - 1);
    }
}

proof fn lemma_own_bonds_distinct(start: int, len: int, arch: PolymerArchitecture, m: PolymerMorphology)
    requires
        0 <= start,
        2 <= len,
        start + len <= usize::MAX,
        morphology_ok(m),
    ensures
        arch_bonds(start, len, arch, m).no_duplicates(),
        forall|i: int|
            0 <= i < arch_bonds(start, len, arch, m).len() ==> start < (#[trigger] arch_bonds(
                start,
                len,
                arch,
                m,
            )[i]).1 < start + len,
{
    let own = arch_bonds(start, len, arch, m);
    assert forall|i: int| 0 <= i < own.len() implies start < (#[trigger] own[i]).1 < start + len by {
        if i < len - 1 {
            assert(own[i] == growth_bond(start, len, arch, m, i + 1));
        }
    }
    assert forall|i: int, j: int| 0 <= i < j < own.len() implies own[i] != own[j] by {
        assert(own[i] == growth_bond(start, len, arch, m, i + 1));
        if j < len - 1 {
            assert(own[j] == growth_bond(start, len, arch, m, j + 1));
        } else {
            assert(own[j] == (start as usize, (start + len - 1) as usize));
            if i == len - 2 {
                assert(local_parent(arch, m, len, len - 1) == len - 2);
            }
        }
    }
}

proof fn lemma_raw_bonds_distinct(
    lengths: Seq<usize>,
    arch: PolymerArchitecture,
    m: PolymerMorphology,
    c: int,
)
    requires
        0 <= c <= lengths.len(),
        forall|q: int| 0 <= q < lengths.len() ==> #[trigger] lengths[q] >= 2,
        total_beads(lengths) <= usize::MAX,
        morphology_ok(m),
    ensures
        raw_bonds(lengths, arch, m, c).no_duplicates(),
    decreases c,
{
    if c > 0 {
        lemma_raw_bonds_distinct(lengths, arch, m, c - 1);
        lemma_raw_bonds_within(lengths, arch, m, c - 1);
        lemma_chain_start_nonneg(lengths, c - 1);
        lemma_chain_start_monotone(lengths, c, lengths.len() as int);
        let start = chain_start(lengths, c - 1);
        let len = lengths[c - 1] as int;
        let prev = raw_bonds(lengths, arch, m, c - 1);
        let own = arch_bonds(start, len, arch, m);
        lemma_own_bonds_distinct(start, len, arch, m);
        assert forall|i: int, j: int| 0 <= i < prev.len() && 0 <= j < own.len() implies prev[i] != own[j] by {
            assert(prev[i].1 < start);
            assert(own[j].1 > start);
        }
        vstd::seq_lib::lemma_no_dup_in_concat(prev, own);
    }
}

/// Whether bond `e` joins beads `x` and `y`, in either order.
pub open spec fn links(e: (usize, usize), x: int, y: int) -> bool {
    (e.0 == x && e.1 == y) || (e.1 == x && e.0 == y)
}

/// Whether every bond has its smaller bead first.
pub open spec fn ordered_bonds(bonds: Seq<(usize, usize)>) -> bool {
    forall|i: int| 0 <= i < bonds.len() ==> (#[trigger] bonds[i]).0 < bonds[i].1
}

/// Whether the entries are strictly ascending.
pub open spec fn ascending(s: Seq<usize>) -> bool {
    forall|i: int, j: int| 0 <= i < j < s.len() ==> s[i] < s[j]
}

/// The bond has its smaller bead first and no chain starts strictly after its first bead and
/// at or before its second: both beads lie in one chain.
pub open spec fn within_one_chain(lengths: Seq<usize>, e: (usize, usize)) -> bool {
    &&& e.0 < e.1
    &&& forall|c: int|
        0 <= c <= lengths.len() ==> !(e.0 < #[trigger] chain_start(lengths, c) <= e.1)
}

proof fn lemma_nbrs_upto_contains(bonds: Seq<(usize, usize)>, x: int, n: int, y: usize)
    requires
        0 <= n <= bonds.len(),
    ensures
        nbrs_upto(bonds, x, n).contains(y) <==> exists|i: int|
            0 <= i < n && #[trigger] links(bonds[i], x, y as int),
    decreases n,
{
    broadcast use vstd::seq_lib::lemma_seq_contains_after_push;

    if n > 0 {
        lemma_nbrs_upto_contains(bonds, x, n - 1, y);
        let e = bonds[n - 1];
        if exists|i: int| 0 <= i < n && #[trigger] links(bonds[i], x, y as int) {
            let i = choose|i: int| 0 <= i < n && #[trigger] links(bonds[i], x, y as int);
            if i < n - 1 {
                assert(exists|i: int| 0 <= i < n - 1 && #[trigger] links(bonds[i], x, y as int));
            } else {
                assert(e.0 == x && e.1 == y || e.1 == x && e.0 == y);
            }
        }
        if nbrs_upto(bonds, x, n).contains(y) {
            if nbrs_upto(bonds, x, n - 1).contains(y) {
                let i = choose|i: int| 0 <= i < n - 1 && #[trigger] links(bonds[i], x, y as int);
                assert(0 <= i < n && links(bonds[i], x, y as int));
            } else {
                assert(links(bonds[n - 1], x, y as int));
            }
        }
    }
}

proof fn lemma_nbrs_upto_ascending(bonds: Seq<(usize, usize)>, x: int, n: int)
    requires
        0 <= n <= bonds.len(),
        pairs_strictly_sorted(bonds),
        ordered_bonds(bonds),
    ensures
        ascending(nbrs_upto(bonds, x, n)),
    decreases n,
{
    if n > 0 {
        lemma_nbrs_upto_ascending(bonds, x, n - 1);
        let prev = nbrs_upto(bonds, x, n - 1);
        let e = bonds[n - 1];
        assert(e.0 < e.1);
        if e.0 == x || e.1 == x {
            let v = if e.0 == x {
                e.1
            } else {
                e.0
            };
            assert forall|j: int| 0 <= j < prev.len() implies prev[j] < v by {
                assert(prev.contains(prev[j]));
                lemma_nbrs_upto_contains(bonds, x, n - 1, prev[j]);
                let i = choose|i: int| 0 <= i < n - 1 && #[trigger] links(bonds[i], x, prev[j] as int);
                assert(pair_lt(bonds[i], bonds[n - 1]));
                assert(bonds[i].0 < bonds[i].1);
            }
            let next = nbrs_upto(bonds, x, n);
            assert(next == prev.push(v));
            assert forall|i: int, j: int| 0 <= i < j < next.len() implies next[i] < next[j] by {
                if j < prev.len() {
                    assert(next[i] == prev[i] && next[j] == prev[j]);
                } else {
                    assert(next[i] == prev[i]);
                }
            }
        } else {
            assert(nbrs_upto(bonds, x, n) == prev);
        }
    }
}

proof fn lemma_max_below(s: Seq<usize>, x: int)
    ensures
        max_below(s, x) matches Some(p) ==> p < x && s.contains(p) && forall|j: int|
            0 <= j < s.len() && s[j] < x ==> s[j] <= p,
        max_below(s, x) is None ==> forall|j: int| 0 <= j < s.len() ==> s[j] >= x,
    decreases s.len(),
{
    if s.len() > 0 {
        let rest = s.drop_last();
        lemma_max_below(rest, x);
        assert forall|j: int| 0 <= j < rest.len() implies rest[j] == s[j] by {}
        if let Some(p) = max_below(s, x) {
            if max_below(rest, x) == Some(p) {
                let w = choose|w: int| 0 <= w < rest.len() && rest[w] == p;
                assert(s[w] == p);
            } else {
                assert(s[s.len() - 1] == p);
            }
        }
    }
}

proof fn lemma_raw_bonds_prefix(
    lengths: Seq<usize>,
    arch: PolymerArchitecture,
    m: PolymerMorphology,
    c: int,
    d: int,
)
    requires
        0 <= c <= d,
    ensures
        raw_bonds(lengths, arch, m, c).len() <= raw_bonds(lengths, arch, m, d).len(),
        forall|i: int|
            0 <= i < raw_bonds(lengths, arch, m, c).len() ==> #[trigger] raw_bonds(
                lengths,
                arch,
                m,
                d,
            )[i] == raw_bonds(lengths, arch, m, c)[i],
    decreases d - c,
{
    if c < d {
        lemma_raw_bonds_prefix(lengths, arch, m, c, d - 1);
    }
}

proof fn lemma_raw_bonds_shape(
    lengths: Seq<usize>,
    arch: PolymerArchitecture,
    m: PolymerMorphology,
    c: int,
)
    requires
        0 <= c <= lengths.len(),
        forall|q: int| 0 <= q < lengths.len() ==> #[trigger] lengths[q] >= 2,
        total_beads(lengths) <= usize::MAX,
        morphology_ok(m),
    ensures
        forall|i: int|
            0 <= i < raw_bonds(lengths, arch, m, c).len() ==> within_one_chain(
                lengths,
                #[trigger] raw_bonds(lengths, arch, m, c)[i],
            ),
    decreases c,
{
    if c > 0 {
        lemma_raw_bonds_shape(lengths, arch, m, c - 1);
        lemma_chain_start_nonneg(lengths, c - 1);
        lemma_chain_start_monotone(lengths, c, lengths.len() as int);
        let start = chain_start(lengths, c - 1);
        let len = lengths[c - 1] as int;
        let prev = raw_bonds(lengths, arch, m, c - 1);
        let own = arch_bonds(start, len, arch, m);
        let all = raw_bonds(lengths, arch, m, c);
        assert forall|i: int| 0 <= i < all.len() implies within_one_chain(
            lengths,
            #[trigger] all[i],
        ) by {
            if i < prev.len() {
                assert(all[i] == prev[i]);
            } else {
                let w = i - prev.len();
                assert(all[i] == own[w]);
                if w < len - 1 {
                    lemma_local_parent_before(arch, m, len, w + 1);
                }
                assert(start <= own[w].0 < own[w].1 < start + len);
                assert forall|d: int| 0 <= d <= lengths.len() implies !(own[w].0
                    < #[trigger] chain_start(lengths, d) <= own[w].1) by {
                    if d <= c - 1 {
                        lemma_chain_start_monotone(lengths, d, c - 1);
                    } else {
                        lemma_chain_start_monotone(lengths, c, d);
                    }
                }
            }
        }
    }
}

/// A bonded topology of a polymer ensemble. Its tables always agree with its chain lengths,
/// architecture and morphology when it is well-formed (see `wf`), as every topology the
/// constructors build is.
#[derive(Clone, Debug)]
pub struct PolymerTopology {
    chain_lengths: Vec<usize>,
    chain_ranges: Vec<core::ops::Range<usize>>,
    atom_to_chain: Vec<usize>,
    bead_within_chain: Vec<usize>,
    bead_type_ids: Vec<u16>,
    architecture: PolymerArchitecture,
    morphology: PolymerMorphology,
    bonds: Vec<(usize, usize)>,
    chain_bonds: Vec<Vec<(usize, usize)>>,
    angles: Vec<(usize, usize, usize)>,
    dihedrals: Vec<(usize, usize, usize, usize)>,
    degrees: Vec<usize>,
    growth_parents: Vec<Option<usize>>,
}

impl PolymerTopology {
    /// Chain lengths of the ensemble.
    pub closed spec fn lengths(&self) -> Seq<usize> {
        self.chain_lengths@
    }

    /// Graph template of the ensemble.
    pub closed spec fn arch(&self) -> PolymerArchitecture {
        self.architecture
    }

    /// Morphology of the ensemble.
    pub closed spec fn morph(&self) -> PolymerMorphology {
        self.morphology
    }

    /// The ensemble's bond list, ascending.
    pub closed spec fn bond_seq(&self) -> Seq<(usize, usize)> {
        self.bonds@
    }

    /// The bead type of every bead.
    pub closed spec fn bead_types(&self) -> Seq<u16> {
        self.bead_type_ids@
    }

    /// Number of beads.
    pub open spec fn beads(&self) -> int {
        total_beads(self.lengths())
    }

    /// Well-formedness: the tables agree with the chain lengths, architecture and morphology.
    /// Every value of the type meets it.
    pub closed spec fn wf(self) -> bool {
        let lengths = self.chain_lengths@;
        let n = total_beads(lengths);
        &&& lengths_ok(lengths)
        &&& n <= usize::MAX
        &&& morphology_ok(self.morphology)
        &&& self.chain_ranges@.len() == lengths.len()
        &&& forall|c: int|
            0 <= c < lengths.len() ==> (#[trigger] self.chain_ranges@[c]).start == chain_start(
                lengths,
                c,
            ) && self.chain_ranges@[c].end == chain_start(lengths, c + 1)
        &&& self.atom_to_chain@.len() == n
        &&& self.bead_within_chain@.len() == n
        &&& forall|c: int, a: int|
            #![trigger self.atom_to_chain@[a], chain_start(lengths, c)]
            0 <= c < lengths.len() && chain_start(lengths, c) <= a < chain_start(lengths, c + 1)
                ==> self.atom_to_chain@[a] == c && self.bead_within_chain@[a] == a - chain_start(
                lengths,
                c,
            )
        &&& self.bead_type_ids@.len() == n
        &&& sorted_bonds_of(
            self.bonds@,
            raw_bonds(lengths, self.architecture, self.morphology, lengths.len() as int),
        )
        &&& bonds_within(self.bonds@, n)
        &&& self.chain_bonds@.len() == lengths.len()
        &&& forall|c: int|
            0 <= c < lengths.len() ==> (#[trigger] self.chain_bonds@[c])@ == arch_bonds(
                chain_start(lengths, c),
                lengths[c] as int,
                self.architecture,
                self.morphology,
            )
        &&& self.degrees@.len() == n
        &&& forall|x: int| 0 <= x < n ==> #[trigger] self.degrees@[x] == nbrs(self.bonds@, x).len()
        &&& self.growth_parents@.len() == n
        &&& forall|x: int|
            0 <= x < n ==> #[trigger] self.growth_parents@[x] == max_below(nbrs(self.bonds@, x), x)
        &&& self.angles@ == angles_upto(adj_spec(self.bonds@, n), n)
        &&& self.dihedrals@ == dihedrals_upto(self.bonds@, adj_spec(self.bonds@, n), self.bonds@.len() as int)
    }

    /// The chain and local index recorded for a bead are those of the chain whose range holds it.
    proof fn lemma_chain_entry(&self, a: int)
        requires
            self.wf(),
            0 <= a < self.beads(),
        ensures
            0 <= self.atom_to_chain@[a] < self.lengths().len(),
            chain_start(self.lengths(), self.atom_to_chain@[a] as int) <= a < chain_start(
                self.lengths(),
                self.atom_to_chain@[a] + 1,
            ),
            self.chain_ranges@[self.atom_to_chain@[a] as int].start == chain_start(
                self.lengths(),
                self.atom_to_chain@[a] as int,
            ),
            self.chain_ranges@[self.atom_to_chain@[a] as int].end == chain_start(
                self.lengths(),
                self.atom_to_chain@[a] + 1,
            ),
            forall|c: int|
                0 <= c < self.lengths().len() && chain_start(self.lengths(), c) <= a
                    < #[trigger] chain_start(self.lengths(), c + 1) ==> self.atom_to_chain@[a] == c
                    && self.bead_within_chain@[a] == a - chain_start(self.lengths(), c)
                    && self.chain_ranges@[c].start == chain_start(self.lengths(), c)
                    && self.chain_ranges@[c].end == chain_start(self.lengths(), c + 1),
    {
        lemma_bead_in_chain(self.chain_lengths@, a);
        let lengths = self.chain_lengths@;
        let c0 = choose|c: int|
            0 <= c < lengths.len() && chain_start(lengths, c) <= a < #[trigger] chain_start(lengths, c + 1);
        assert(self.atom_to_chain@[a] == c0);
    }

    /// Every bond has its smaller bead first and joins two beads of one chain.
    pub proof fn lemma_bonds_within_chains(&self)
        requires
            self.wf(),
        ensures
            ordered_bonds(self.bond_seq()),
            forall|i: int|
                0 <= i < self.bond_seq().len() ==> within_one_chain(
                    self.lengths(),
                    #[trigger] self.bond_seq()[i],
                ),
    {
        let lengths = self.chain_lengths@;
        let raw = raw_bonds(lengths, self.architecture, self.morphology, lengths.len() as int);
        lemma_raw_bonds_shape(lengths, self.architecture, self.morphology, lengths.len() as int);
        assert forall|i: int| 0 <= i < self.bonds@.len() implies within_one_chain(
            lengths,
            #[trigger] self.bonds@[i],
        ) by {
            assert(self.bonds@.contains(self.bonds@[i]));
            assert(raw.contains(self.bonds@[i]));
            let j = choose|j: int| 0 <= j < raw.len() && raw[j] == self.bonds@[i];
            assert(within_one_chain(lengths, raw[j]));
        }
    }

    /// The neighbours of every bead are listed in strictly ascending order.
    pub proof fn lemma_neighbours_ascending(&self, x: int)
        requires
            self.wf(),
        ensures
            ascending(nbrs(self.bond_seq(), x)),
    {
        self.lemma_bonds_within_chains();
        lemma_nbrs_upto_ascending(self.bonds@, x, self.bonds@.len() as int);
    }

    /// The first bead of every chain has no growth parent; every later bead has one: an
    /// earlier bead of the same chain, bonded to it. Following growth parents from any bead
    /// reaches the first bead of its chain, so every chain is connected.
    pub proof fn lemma_growth_parents(&self, c: int, a: int)
        requires
            self.wf(),
            0 <= c < self.lengths().len(),
            chain_start(self.lengths(), c) <= a < chain_start(self.lengths(), c + 1),
        ensures
            a == chain_start(self.lengths(), c) ==> max_below(nbrs(self.bond_seq(), a), a) is None,
            a > chain_start(self.lengths(), c) ==> (max_below(nbrs(self.bond_seq(), a), a) matches Some(p)
                && chain_start(self.lengths(), c) <= p < a
                && self.bond_seq().contains((p, a as usize))),
    {
        let lengths = self.chain_lengths@;
        let arch = self.architecture;
        let m = self.morphology;
        let bonds = self.bonds@;
        let s = nbrs(bonds, a);
        let start = chain_start(lengths, c);
        self.lemma_bonds_within_chains();
        lemma_max_below(s, a);
        lemma_chain_start_nonneg(lengths, c);
        lemma_chain_start_monotone(lengths, c + 1, lengths.len() as int);
        if a == start {
            assert forall|j: int| 0 <= j < s.len() implies s[j] >= a by {
                assert(s.contains(s[j]));
                lemma_nbrs_upto_contains(bonds, a, bonds.len() as int, s[j]);
                let i = choose|i: int| 0 <= i < bonds.len() && #[trigger] links(bonds[i], a, s[j] as int);
                assert(within_one_chain(lengths, bonds[i]));
                if bonds[i].1 == a {
                    assert(!(bonds[i].0 < chain_start(lengths, c) <= bonds[i].1));
                }
            }
        } else {
            let len = lengths[c] as int;
            let k = a - start;
            lemma_local_parent_before(arch, m, len, k);
            let y = start + local_parent(arch, m, len, k);
            let g = growth_bond(start, len, arch, m, k);
            let own = arch_bonds(start, len, arch, m);
            assert(own[k - 1] == g);
            let before = raw_bonds(lengths, arch, m, c);
            let upto = raw_bonds(lengths, arch, m, c + 1);
            assert(upto[before.len() + k - 1] == g);
            lemma_raw_bonds_prefix(lengths, arch, m, c + 1, lengths.len() as int);
            let raw = raw_bonds(lengths, arch, m, lengths.len() as int);
            assert(raw[before.len() + k - 1] == g);
            assert(raw.contains(g));
            assert(bonds.contains(g));
            let gi = choose|i: int| 0 <= i < bonds.len() && bonds[i] == g;
            assert(links(bonds[gi], a, y));
            lemma_nbrs_upto_contains(bonds, a, bonds.len() as int, y as usize);
            assert(s.contains(y as usize));
            let yj = choose|j: int| 0 <= j < s.len() && s[j] == y as usize;
            assert(s[yj] < a);
            let p = max_below(s, a)->0;
            lemma_nbrs_upto_contains(bonds, a, bonds.len() as int, p);
            let pi = choose|i: int| 0 <= i < bonds.len() && #[trigger] links(bonds[i], a, p as int);
            assert(bonds[pi].0 < bonds[pi].1);
            assert(bonds[pi] == (p, a as usize));
            assert(bonds.contains((p, a as usize)));
        }
    }

    /// A chain of `n` beads has `n - 1` bonds, and a ring of more than two beads one more:
    /// every template is a tree, closed into a single cycle for rings, and no bond repeats.
    pub proof fn lemma_bond_count(&self)
        requires
            self.wf(),
        ensures
            self.bond_seq().len() == bond_count(self.lengths(), self.arch(), self.lengths().len() as int),
    {
        let lengths = self.chain_lengths@;
        let n = lengths.len() as int;
        let raw = raw_bonds(lengths, self.architecture, self.morphology, n);
        let bonds = self.bonds@;
        lemma_raw_bonds_len(lengths, self.architecture, self.morphology, n);
        lemma_raw_bonds_distinct(lengths, self.architecture, self.morphology, n);
        assert forall|i: int, j: int| 0 <= i < j < bonds.len() implies bonds[i] != bonds[j] by {
            assert(pair_lt(bonds[i], bonds[j]));
        }
        assert(bonds.no_duplicates());
        assert(bonds.to_set() =~= raw.to_set());
        bonds.unique_seq_to_set();
        raw.unique_seq_to_set();
    }

    /// What well-formedness tells about the chains and bonds.
    pub proof fn lemma_tables(&self)
        requires
            self.wf(),
        ensures
            lengths_ok(self.lengths()),
            self.beads() <= usize::MAX,
            morphology_ok(self.morph()),
            sorted_bonds_of(
                self.bond_seq(),
                raw_bonds(self.lengths(), self.arch(), self.morph(), self.lengths().len() as int),
            ),
            bonds_within(self.bond_seq(), self.beads()),
            self.bead_types().len() == self.beads(),
    {
    }

    /// A topology of linear chains with the default morphology.
    pub fn new(chain_lengths: Vec<usize>, box_length_ok: bool) -> (r: Result<
        PolymerTopology,
        EvaluationError,
    >)
        requires
            buildable(chain_lengths@, box_length_ok, default_morphology()),
        ensures
            built(r, chain_lengths@, box_length_ok, PolymerArchitecture::Linear, default_morphology()),
    {
        PolymerTopology::with_architecture(chain_lengths, box_length_ok, PolymerArchitecture::Linear)
    }

    /// A topology of the given architecture with the default morphology.
    pub fn with_architecture(
        chain_lengths: Vec<usize>,
        box_length_ok: bool,
        architecture: PolymerArchitecture,
    ) -> (r: Result<PolymerTopology, EvaluationError>)
        requires
            buildable(chain_lengths@, box_length_ok, default_morphology()),
        ensures
            built(r, chain_lengths@, box_length_ok, architecture, default_morphology()),
    {
        PolymerTopology::with_morphology(
            chain_lengths,
            box_length_ok,
            architecture,
            PolymerMorphology::default(),
        )
    }

    /// Builds the topology of chains of the given lengths. `box_length_ok` says whether the
    /// simulation box length is positive and finite. The lengths are checked first, then the
    /// box, then the morphology bounds.
    pub fn with_morphology(
        chain_lengths: Vec<usize>,
        box_length_ok: bool,
        architecture: PolymerArchitecture,
        morphology: PolymerMorphology,
    ) -> (r: Result<PolymerTopology, EvaluationError>)
        requires
            buildable(chain_lengths@, box_length_ok, morphology),
        ensures
            built(r, chain_lengths@, box_length_ok, architecture, morphology),
    {
        let mut lengths_valid = chain_lengths.len() > 0;
        let mut c: usize = 0;
        while c < chain_lengths.len()
            invariant
                c <= chain_lengths@.len(),
                lengths_valid <==> (chain_lengths@.len() > 0 && forall|q: int|
                    0 <= q < c ==> #[trigger] chain_lengths@[q] >= 2),
            decreases chain_lengths@.len() - c,
        {
            if chain_lengths[c] < 2 {
                lengths_valid = false;
            }
            c += 1;
        }
        if !lengths_valid {
            return Err(
                EvaluationError::InvalidIndividual(
                    "polymer topology requires at least one chain and two beads per chain".to_owned(),
                ),
            );
        }
        if !box_length_ok {
            return Err(
                EvaluationError::InvalidIndividual(
                    "box length must be positive and finite".to_owned(),
                ),
            );
        }
        if morphology.dendritic_branching < 2 || morphology.dendritic_branching > 3
            || morphology.dendritic_spacer < 1 || morphology.dendritic_spacer > 8
            || morphology.bottlebrush_graft_spacing < 1 || morphology.bottlebrush_graft_spacing > 16
            || morphology.bottlebrush_side_chain < 1 || morphology.bottlebrush_side_chain > 32 {
            return Err(
                EvaluationError::InvalidIndividual(
                    "polymer morphology parameters are outside supported bounds".to_owned(),
                ),
            );
        }
        let ghost lengths = chain_lengths@;
        let tables = build_chains(&chain_lengths, architecture, morphology);
        let offset = tables.atom_to_chain.len();
        let mut bonds = tables.bonds;
        let ghost raw = bonds@;
        sort_pairs(&mut bonds);
        let ghost sorted = bonds@;
        let bonds = dedup_sorted(&bonds);
        proof {
            lemma_raw_bonds_within(lengths, architecture, morphology, lengths.len() as int);
            assert forall|e: (usize, usize)| #[trigger] bonds@.contains(e) <==> raw.contains(e) by {
                raw.to_multiset_ensures();
                sorted.to_multiset_ensures();
                assert(raw.to_multiset().count(e) == sorted.to_multiset().count(e));
                assert(bonds@.contains(e) <==> sorted.contains(e));
            }
            assert forall|i: int| 0 <= i < bonds@.len() implies (#[trigger] bonds@[i]).0 < offset
                && bonds@[i].1 < offset by {
                assert(bonds@.contains(bonds@[i]));
                assert(raw.contains(bonds@[i]));
            }
        }
        let adjacency = build_adjacency(&bonds, offset);
        let (degrees, growth_parents) = degrees_and_parents(&adjacency);
        let angles = build_angles(&adjacency);
        let dihedrals = build_dihedrals(bonds.as_slice(), &adjacency);
        proof {
            assert(adj_view(adjacency@) =~= adj_spec(bonds@, offset as int));
            assert(offset == total_beads(lengths));
            assert(angles@ == angles_upto(adj_spec(bonds@, offset as int), offset as int));
            assert(dihedrals@ == dihedrals_upto(
                bonds@,
                adj_spec(bonds@, offset as int),
                bonds@.len() as int,
            ));
            assert forall|x: int| 0 <= x < offset implies #[trigger] degrees@[x] == nbrs(
                bonds@,
                x,
            ).len() && growth_parents@[x] == max_below(nbrs(bonds@, x), x) by {
                assert(adjacency@[x]@ == nbrs(bonds@, x));
            }
            assert(sorted_bonds_of(
                bonds@,
                raw_bonds(lengths, architecture, morphology, lengths.len() as int),
            ));
        }
        let mut bead_type_ids: Vec<u16> = Vec::new();
        let mut b: usize = 0;
        while b < offset
            invariant
                b <= offset,
                bead_type_ids@ == Seq::new(b as nat, |i: int| 0u16),
            decreases offset - b,
        {
            bead_type_ids.push(0);
            proof {
                assert(bead_type_ids@ =~= Seq::new((b + 1) as nat, |i: int| 0u16));
            }
            b += 1;
        }
        Ok(
            PolymerTopology {
                chain_lengths,
                chain_ranges: tables.chain_ranges,
                atom_to_chain: tables.atom_to_chain,
                bead_within_chain: tables.bead_within_chain,
                bead_type_ids,
                architecture,
                morphology,
                bonds,
                chain_bonds: tables.chain_bonds,
                angles,
                dihedrals,
                degrees,
                growth_parents,
            },
        )
    }
}

/// The default morphology: branching 2, spacer 2, graft spacing 2, side chain 3.
pub open spec fn default_morphology() -> PolymerMorphology {
    PolymerMorphology {
        dendritic_branching: 2,
        dendritic_spacer: 2,
        bottlebrush_graft_spacing: 2,
        bottlebrush_side_chain: 3,
    }
}

/// What building a topology gives: on valid chain lengths, a valid box and a supported
/// morphology, the topology of those chains, with every bead of type 0; otherwise the first
/// failed check, as an invalid individual with its message.
pub open spec fn built(
    r: Result<PolymerTopology, EvaluationError>,
    lengths: Seq<usize>,
    box_ok: bool,
    arch: PolymerArchitecture,
    m: PolymerMorphology,
) -> bool {
    match r {
        Ok(t) => {
            &&& t.wf()
            &&& lengths_ok(lengths)
            &&& box_ok
            &&& morphology_ok(m)
            &&& t.lengths() == lengths
            &&& t.arch() == arch
            &&& t.morph() == m
            &&& t.bead_types() == Seq::new(total_beads(lengths) as nat, |i: int| 0u16)
        },
        Err(EvaluationError::InvalidIndividual(msg)) => if !lengths_ok(lengths) {
            msg@ == "polymer topology requires at least one chain and two beads per chain"@
        } else if !box_ok {
            msg@ == "box length must be positive and finite"@
        } else {
            !morphology_ok(m) && msg@ == "polymer morphology parameters are outside supported bounds"@
        },
        Err(_) => false,
    }
}


/// Whether a topology request can be handed to the builders: it fails a check, or its bead
/// count fits in memory.
pub fn can_build(chain_lengths: &Vec<usize>, box_length_ok: bool, morphology: PolymerMorphology) -> (r: bool)
    ensures
        r == buildable(chain_lengths@, box_length_ok, morphology),
{
    let mut total: usize = 0;
    let mut valid: bool = chain_lengths.len() > 0;
    let mut fits: bool = true;
    let mut c: usize = 0;
    while c < chain_lengths.len()
        invariant
            c <= chain_lengths@.len(),
            valid <==> (chain_lengths@.len() > 0 && forall|q: int|
                0 <= q < c ==> #[trigger] chain_lengths@[q] >= 2),
            fits ==> total == chain_start(chain_lengths@, c as int),
            !fits ==> chain_start(chain_lengths@, c as int) > usize::MAX,
        decreases chain_lengths@.len() - c,
    {
        if chain_lengths[c] < 2 {
            valid = false;
        }
        proof {
            lemma_chain_start_nonneg(chain_lengths@, c as int);
        }
        if fits {
            match total.checked_add(chain_lengths[c]) {
                Some(t) => {
                    total = t;
                },
                None => {
                    fits = false;
                },
            }
        }
        c += 1;
    }
    let morphology_valid = 2 <= morphology.dendritic_branching && morphology.dendritic_branching <= 3
        && 1 <= morphology.dendritic_spacer && morphology.dendritic_spacer <= 8
        && 1 <= morphology.bottlebrush_graft_spacing && morphology.bottlebrush_graft_spacing <= 16
        && 1 <= morphology.bottlebrush_side_chain && morphology.bottlebrush_side_chain <= 32;
    fits || !(valid && box_length_ok && morphology_valid)
}

/// The message for a bead type list of the wrong length.
pub open spec fn bead_count_message(given: nat, expected: nat) -> Seq<char> {
    "received "@ + decimal(given) + " bead types for "@ + decimal(expected) + " beads"@
}

/// The bead-count mismatch message for `given` types and `expected` beads.
fn bead_count_text(given: usize, expected: usize) -> (text: String)
    ensures
        text@ == bead_count_message(given as nat, expected as nat),
{
    let mut text = "received ".to_owned();
    push_decimal(&mut text, given as u64);
    text.append(" bead types for ");
    push_decimal(&mut text, expected as u64);
    text.append(" beads");
    text
}

/// On a bottlebrush, every bead bonded to three or more beads is a graft point and has role
/// 2, and every bead with a single bond ends a chain and has role 1: the role that
/// `morphology_role` reports and `with_demo_bead_types` uses as the bead's type.
pub proof fn lemma_bottlebrush_roles(t: PolymerTopology, atom: int, c: int)
    requires
        t.arch() == PolymerArchitecture::Bottlebrush,
        0 <= c < t.lengths().len(),
        chain_start(t.lengths(), c) <= atom < chain_start(t.lengths(), c + 1),
    ensures
        nbrs(t.bond_seq(), atom).len() >= 3 ==> role_of(
            t.arch(),
            atom - chain_start(t.lengths(), c),
            nbrs(t.bond_seq(), atom).len() as int,
            spec_backbone_length(t.lengths()[c] as int, t.morph()),
        ) == 2,
        nbrs(t.bond_seq(), atom).len() == 1 ==> role_of(
            t.arch(),
            atom - chain_start(t.lengths(), c),
            nbrs(t.bond_seq(), atom).len() as int,
            spec_backbone_length(t.lengths()[c] as int, t.morph()),
        ) == 1,
{
}

/// Role code of a bead from its architecture, its index within its chain, its degree and the
/// backbone length of its chain: for linear chains 1 at an end and 0 inside; 0 on rings; for
/// dendrimers 4 at the core, 2 at a branch point, 1 at a tip and 3 on a spacer; for
/// bottlebrushes 2 at a graft point, and on side chains 1 at a tip and 3 inside, on the
/// backbone 1 at an end and 0 inside.
pub open spec fn role_of(arch: PolymerArchitecture, local: int, degree: int, backbone: int) -> u16 {
    match arch {
        PolymerArchitecture::Linear => if degree == 1 {
            1
        } else {
            0
        },
        PolymerArchitecture::Ring => 0,
        PolymerArchitecture::Dendritic => if local == 0 {
            4
        } else if degree >= 3 {
            2
        } else if degree == 1 {
            1
        } else {
            3
        },
        PolymerArchitecture::Bottlebrush => if degree >= 3 {
            2
        } else if local >= backbone {
            if degree == 1 {
                1
            } else {
                3
            }
        } else if degree == 1 {
            1
        } else {
            0
        },
    }
}

/// The bond between two beads as stored: smaller bead first.
pub open spec fn edge_of(first: usize, second: usize) -> (usize, usize) {
    if first < second {
        (first, second)
    } else {
        (second, first)
    }
}

impl PolymerTopology {
    /// Replaces the bead types; the list must have one entry per bead.
    pub fn with_bead_types(self, bead_type_ids: Vec<u16>) -> (r: Result<
        PolymerTopology,
        EvaluationError,
    >)
        requires
            self.wf(),
        ensures
            bead_type_ids@.len() == self.beads() ==> (r matches Ok(t) && t.wf() && t.lengths()
                == self.lengths() && t.arch() == self.arch() && t.morph() == self.morph()
                && t.bead_types() == bead_type_ids@ && t.bond_seq() == self.bond_seq()),
            bead_type_ids@.len() != self.beads() ==> (r matches Err(
                EvaluationError::InvalidIndividual(msg),
            ) && msg@ == bead_count_message(bead_type_ids@.len() as nat, self.beads() as nat)),
    {
        let count = self.atom_to_chain.len();
        if bead_type_ids.len() != count {
            return Err(
                EvaluationError::InvalidIndividual(
                    bead_count_text(bead_type_ids.len(), count),
                ),
            );
        }
        let mut t = self;
        t.bead_type_ids = bead_type_ids;
        Ok(t)
    }

    /// The same topology for another box; `box_length_ok` says whether the new box length is
    /// positive and finite.
    pub fn with_box_length(&self, box_length_ok: bool) -> (r: Result<
        PolymerTopology,
        EvaluationError,
    >)
        requires
            self.wf(),
        ensures
            box_length_ok ==> (r matches Ok(t) && t.wf() && t.lengths() == self.lengths() && t.arch()
                == self.arch() && t.morph() == self.morph() && t.bead_types() == self.bead_types()),
            !box_length_ok ==> (r matches Err(EvaluationError::InvalidIndividual(msg)) && msg@
                == "box length must be positive and finite"@),
    {
        let lengths = self.chain_lengths.clone();
        let types = self.bead_type_ids.clone();
        proof {
            assert(lengths@ =~= self.chain_lengths@);
            assert(types@ =~= self.bead_type_ids@);
        }
        match PolymerTopology::with_morphology(
            lengths,
            box_length_ok,
            self.architecture,
            self.morphology,
        ) {
            Ok(t) => t.with_bead_types(types),
            Err(e) => Err(e),
        }
    }

    /// Chain lengths, in chain order.
    pub fn chain_lengths(&self) -> (r: &[usize])
        ensures
            r@ == self.lengths(),
    {
        self.chain_lengths.as_slice()
    }

    /// The bead range of every chain.
    pub fn chain_ranges(&self) -> (r: &[core::ops::Range<usize>])
        requires
            self.wf(),
        ensures
            r@.len() == self.lengths().len(),
            forall|c: int|
                0 <= c < r@.len() ==> (#[trigger] r@[c]).start == chain_start(self.lengths(), c)
                    && r@[c].end == chain_start(self.lengths(), c + 1),
    {
        self.chain_ranges.as_slice()
    }

    /// Number of beads.
    pub fn atom_count(&self) -> (r: usize)
        requires
            self.wf(),
        ensures
            r == self.beads(),
    {
        self.atom_to_chain.len()
    }

    /// Number of chains.
    pub fn chain_count(&self) -> (r: usize)
        ensures
            r == self.lengths().len(),
    {
        self.chain_lengths.len()
    }

    pub fn architecture(&self) -> (r: PolymerArchitecture)
        ensures
            r == self.arch(),
    {
        self.architecture
    }

    pub fn morphology(&self) -> (r: PolymerMorphology)
        ensures
            r == self.morph(),
    {
        self.morphology
    }

    /// All bonds, each with its smaller bead first, in ascending order without repeats: the
    /// bonds of every chain's template.
    pub fn bonds(&self) -> (r: &[(usize, usize)])
        requires
            self.wf(),
        ensures
            r@ == self.bond_seq(),
            pairs_strictly_sorted(r@),
            forall|e: (usize, usize)|
                #[trigger] r@.contains(e) <==> raw_bonds(
                    self.lengths(),
                    self.arch(),
                    self.morph(),
                    self.lengths().len() as int,
                ).contains(e),
    {
        self.bonds.as_slice()
    }

    /// The bonds of one chain, in the order they were grown.
    pub fn chain_bonds(&self, chain: usize) -> (r: Option<&[(usize, usize)]>)
        requires
            self.wf(),
        ensures
            chain < self.lengths().len() ==> (r matches Some(b) && b@ == arch_bonds(
                chain_start(self.lengths(), chain as int),
                self.lengths()[chain as int] as int,
                self.arch(),
                self.morph(),
            )),
            chain >= self.lengths().len() ==> r is None,
    {
        if chain < self.chain_bonds.len() {
            Some(self.chain_bonds[chain].as_slice())
        } else {
            None
        }
    }

    /// The bond angles: around every centre, in bead order, each pair of its neighbours.
    pub fn angles(&self) -> (r: &[(usize, usize, usize)])
        requires
            self.wf(),
        ensures
            r@ == angles_upto(adj_spec(self.bond_seq(), self.beads()), self.beads()),
    {
        self.angles.as_slice()
    }

    /// The dihedrals: around every bond, in bond order, each outer neighbour pair.
    pub fn dihedrals(&self) -> (r: &[(usize, usize, usize, usize)])
        requires
            self.wf(),
        ensures
            r@ == dihedrals_upto(
                self.bond_seq(),
                adj_spec(self.bond_seq(), self.beads()),
                self.bond_seq().len() as int,
            ),
    {
        self.dihedrals.as_slice()
    }

    /// Number of bonds of a bead.
    pub fn degree(&self, atom: usize) -> (r: Option<usize>)
        requires
            self.wf(),
        ensures
            atom < self.beads() ==> (r matches Some(d) && d == nbrs(self.bond_seq(), atom as int).len()),
            atom >= self.beads() ==> r is None,
    {
        if atom < self.degrees.len() {
            Some(self.degrees[atom])
        } else {
            None
        }
    }

    /// The largest bonded bead below `atom`: the bead it grew from.
    pub fn growth_parent(&self, atom: usize) -> (r: Option<usize>)
        requires
            self.wf(),
        ensures
            atom < self.beads() ==> r == max_below(nbrs(self.bond_seq(), atom as int), atom as int),
            atom >= self.beads() ==> r is None,
    {
        if atom < self.growth_parents.len() {
            self.growth_parents[atom]
        } else {
            None
        }
    }

    /// The chain a bead belongs to.
    pub fn chain_of(&self, atom: usize) -> (r: Option<usize>)
        requires
            self.wf(),
        ensures
            atom >= self.beads() ==> r is None,
            forall|c: int|
                0 <= c < self.lengths().len() && chain_start(self.lengths(), c) <= atom
                    < #[trigger] chain_start(self.lengths(), c + 1) ==> r == Some(c as usize),
    {
        if atom < self.atom_to_chain.len() {
            let chain = self.atom_to_chain[atom];
            proof {
                self.lemma_chain_entry(atom as int);
            }
            Some(chain)
        } else {
            proof {
                lemma_past_all_chains(self.chain_lengths@, atom as int);
            }
            None
        }
    }

    /// The index of a bead within its chain.
    pub fn bead_within_chain(&self, atom: usize) -> (r: Option<usize>)
        requires
            self.wf(),
        ensures
            atom >= self.beads() ==> r is None,
            forall|c: int|
                0 <= c < self.lengths().len() && chain_start(self.lengths(), c) <= atom
                    < #[trigger] chain_start(self.lengths(), c + 1) ==> r == Some(
                    (atom - chain_start(self.lengths(), c)) as usize,
                ),
    {
        if atom < self.bead_within_chain.len() {
            let local = self.bead_within_chain[atom];
            proof {
                self.lemma_chain_entry(atom as int);
            }
            Some(local)
        } else {
            proof {
                lemma_past_all_chains(self.chain_lengths@, atom as int);
            }
            None
        }
    }

    /// The length of the chain a bead belongs to.
    pub fn chain_length_of(&self, atom: usize) -> (r: Option<usize>)
        requires
            self.wf(),
        ensures
            atom >= self.beads() ==> r is None,
            forall|c: int|
                0 <= c < self.lengths().len() && chain_start(self.lengths(), c) <= atom
                    < #[trigger] chain_start(self.lengths(), c + 1) ==> r == Some(
                    self.lengths()[c],
                ),
    {
        if atom < self.atom_to_chain.len() {
            let chain = self.atom_to_chain[atom];
            proof {
                self.lemma_chain_entry(atom as int);
            }
            Some(self.chain_lengths[chain])
        } else {
            proof {
                lemma_past_all_chains(self.chain_lengths@, atom as int);
            }
            None
        }
    }

    /// The type of a bead.
    pub fn bead_type(&self, atom: usize) -> (r: Option<u16>)
        requires
            self.wf(),
        ensures
            atom < self.beads() ==> r == Some(self.bead_types()[atom as int]),
            atom >= self.beads() ==> r is None,
    {
        if atom < self.bead_type_ids.len() {
            Some(self.bead_type_ids[atom])
        } else {
            None
        }
    }

    /// The structural role of a bead (see `role_of`).
    pub fn morphology_role(&self, atom: usize) -> (r: Option<u16>)
        requires
            self.wf(),
        ensures
            atom >= self.beads() ==> r is None,
            forall|c: int|
                0 <= c < self.lengths().len() && chain_start(self.lengths(), c) <= atom
                    < #[trigger] chain_start(self.lengths(), c + 1) ==> r == Some(
                    role_of(
                        self.arch(),
                        atom - chain_start(self.lengths(), c),
                        nbrs(self.bond_seq(), atom as int).len() as int,
                        spec_backbone_length(self.lengths()[c] as int, self.morph()),
                    ),
                ),
    {
        if atom >= self.atom_to_chain.len() {
            proof {
                lemma_past_all_chains(self.chain_lengths@, atom as int);
            }
            return None;
        }
        let chain = self.atom_to_chain[atom];
        proof {
            self.lemma_chain_entry(atom as int);
        }
        let range = &self.chain_ranges[chain];
        let local = atom - range.start;
        let degree = self.degrees[atom];
        let role: u16 = match self.architecture {
            PolymerArchitecture::Linear => if degree == 1 {
                1
            } else {
                0
            },
            PolymerArchitecture::Ring => 0,
            PolymerArchitecture::Dendritic => if local == 0 {
                4
            } else if degree >= 3 {
                2
            } else if degree == 1 {
                1
            } else {
                3
            },
            PolymerArchitecture::Bottlebrush => {
                let backbone = bottlebrush_backbone_length(range.end - range.start, self.morphology);
                if degree >= 3 {
                    2
                } else if local >= backbone {
                    if degree == 1 {
                        1
                    } else {
                        3
                    }
                } else if degree == 1 {
                    1
                } else {
                    0
                }
            },
        };
        Some(role)
    }

    /// Whether a bead has exactly one bond.
    pub fn is_terminal(&self, atom: usize) -> (r: bool)
        requires
            self.wf(),
        ensures
            r == (atom < self.beads() && nbrs(self.bond_seq(), atom as int).len() == 1),
    {
        match self.degree(atom) {
            Some(d) => d == 1,
            None => false,
        }
    }

    /// Whether the two beads share a bond, found by binary search of the bond list.
    pub fn are_directly_bonded(&self, first: usize, second: usize) -> (r: bool)
        requires
            self.wf(),
        ensures
            r == self.bond_seq().contains(edge_of(first, second)),
    {
        let edge = if first < second {
            (first, second)
        } else {
            (second, first)
        };
        assert(edge == edge_of(first, second));
        let bonds = &self.bonds;
        let mut lo: usize = 0;
        let mut hi: usize = bonds.len();
        while lo < hi
            invariant
                bonds@ == self.bond_seq(),
                edge == edge_of(first, second),
                lo <= hi <= bonds@.len(),
                pairs_strictly_sorted(bonds@),
                forall|i: int| 0 <= i < lo ==> #[trigger] pair_lt(bonds@[i], edge),
                forall|i: int| hi <= i < bonds@.len() ==> #[trigger] pair_lt(edge, bonds@[i]),
            decreases hi - lo,
        {
            let mid = lo + (hi - lo) / 2;
            let probe = bonds[mid];
            if probe.0 == edge.0 && probe.1 == edge.1 {
                proof {
                    assert(bonds@[mid as int] == edge);
                    assert(bonds@.contains(edge));
                }
                return true;
            }
            if probe.0 < edge.0 || (probe.0 == edge.0 && probe.1 < edge.1) {
                proof {
                    assert forall|i: int| 0 <= i < mid + 1 implies #[trigger] pair_lt(bonds@[i], edge) by {
                        if i < mid {
                            assert(pair_lt(bonds@[i], bonds@[mid as int]));
                        }
                    }
                }
                lo = mid + 1;
            } else {
                proof {
                    assert forall|i: int| mid <= i < bonds@.len() implies #[trigger] pair_lt(edge, bonds@[i]) by {
                        if i > mid {
                            assert(pair_lt(bonds@[mid as int], bonds@[i]));
                        }
                    }
                }
                hi = mid;
            }
        }
        proof {
            if bonds@.contains(edge) {
                let w = choose|w: int| 0 <= w < bonds@.len() && bonds@[w] == edge;
                if w < lo {
                    assert(pair_lt(bonds@[w], edge));
                } else {
                    assert(pair_lt(edge, bonds@[w]));
                }
            }
        }
        false
    }
}

/// Types every bead by its morphology role (see `role_of`).
pub fn with_demo_bead_types(topology: PolymerTopology) -> (r: Result<PolymerTopology, EvaluationError>)
    requires
        topology.wf(),
    ensures
        r matches Ok(t) && t.wf() && t.lengths() == topology.lengths() && t.arch() == topology.arch()
            && t.bond_seq() == topology.bond_seq()
            && t.morph() == topology.morph() && t.bead_types().len() == topology.beads()
            && forall|c: int, a: int|
            #![trigger t.bead_types()[a], chain_start(topology.lengths(), c)]
            0 <= c < topology.lengths().len() && 0 <= a && chain_start(topology.lengths(), c) <= a
                < chain_start(topology.lengths(), c + 1) ==> t.bead_types()[a] == role_of(
                topology.arch(),
                a - chain_start(topology.lengths(), c),
                nbrs(topology.bond_seq(), a).len() as int,
                spec_backbone_length(topology.lengths()[c] as int, topology.morph()),
            ),
{
    let count = topology.atom_count();
    let ghost lengths = topology.lengths();
    let mut types: Vec<u16> = Vec::new();
    let mut atom: usize = 0;
    while atom < count
        invariant
            topology.wf(),
            count == topology.beads(),
            lengths == topology.lengths(),
            atom <= count,
            types@.len() == atom,
            forall|c: int, a: int|
                #![trigger types@[a], chain_start(lengths, c)]
                0 <= c < lengths.len() && 0 <= a && chain_start(lengths, c) <= a < chain_start(lengths, c + 1)
                    && a < atom ==> types@[a] == role_of(
                    topology.arch(),
                    a - chain_start(lengths, c),
                    nbrs(topology.bond_seq(), a).len() as int,
                    spec_backbone_length(lengths[c] as int, topology.morph()),
                ),
        decreases count - atom,
    {
        let role = match topology.morphology_role(atom) {
            Some(role) => role,
            None => 0,
        };
        let ghost before = types@;
        types.push(role);
        proof {
            assert forall|c: int, a: int|
                #![trigger types@[a], chain_start(lengths, c)]
                0 <= c < lengths.len() && 0 <= a && chain_start(lengths, c) <= a < chain_start(lengths, c + 1)
                    && a < atom + 1 implies types@[a] == role_of(
                    topology.arch(),
                    a - chain_start(lengths, c),
                    nbrs(topology.bond_seq(), a).len() as int,
                    spec_backbone_length(lengths[c] as int, topology.morph()),
                ) by {
                if a < atom {
                    assert(types@[a] == before[a]);
                }
            }
        }
        atom += 1;
    }
    proof {
        assert forall|c: int, a: int|
            #![trigger types@[a], chain_start(lengths, c)]
            0 <= c < lengths.len() && 0 <= a && chain_start(lengths, c) <= a < chain_start(
                lengths,
                c + 1,
            ) implies a < count by {
            lemma_chain_start_monotone(lengths, c + 1, lengths.len() as int);
        }
    }
    topology.with_bead_types(types)
}

/// Sum of the entries.
pub open spec fn sum_of(s: Seq<usize>) -> int
    decreases s.len(),
{
    if s.len() == 0 {
        0
    } else {
        sum_of(s.drop_last()) + s.last()
    }
}

proof fn lemma_sum_bump(s: Seq<usize>, j: int)
    requires
        0 <= j < s.len(),
        s[j] < usize::MAX,
    ensures
        sum_of(s.update(j, (s[j] + 1) as usize)) == sum_of(s) + 1,
    decreases s.len(),
{
    let t = s.update(j, (s[j] + 1) as usize);
    if j == s.len() - 1 {
        assert(t.drop_last() =~= s.drop_last());
    } else {
        lemma_sum_bump(s.drop_last(), j);
        assert(t.drop_last() =~= s.drop_last().update(j, (s[j] + 1) as usize));
    }
}

proof fn lemma_sum_push(s: Seq<usize>, v: usize)
    ensures
        sum_of(s.push(v)) == sum_of(s) + v,
{
    assert(s.push(v).drop_last() =~= s);
}

/// The order lists every chain below `n` exactly once.
pub open spec fn is_order(order: Seq<usize>, n: int) -> bool {
    &&& order.len() == n
    &&& forall|i: int| 0 <= i < n ==> #[trigger] order[i] < n
    &&& forall|i: int, j: int| 0 <= i < j < n ==> order[i] != order[j]
}

/// The chain lengths of an ensemble by largest remainders: chain `c` gets four beads plus the
/// whole part `floors[c]` of its share, and the chains first in `order` (largest fractional
/// part first) get one bead more each, as long as beads remain.
pub fn apportion_lengths(atom_count: usize, floors: &[usize], order: &[usize]) -> (lengths: Vec<usize>)
    requires
        is_order(order@, floors@.len() as int),
        4 * floors@.len() + sum_of(floors@) <= atom_count,
    ensures
        lengths@.len() == floors@.len(),
        ({
            let extra = atom_count - 4 * floors@.len() - sum_of(floors@);
            let bumped = if extra <= floors@.len() {
                extra
            } else {
                floors@.len() as int
            };
            &&& forall|c: int|
                0 <= c < floors@.len() ==> #[trigger] lengths@[c] == 4 + floors@[c] + if order@.take(
                    bumped,
                ).contains(c as usize) {
                    1int
                } else {
                    0int
                }
            &&& sum_of(lengths@) == 4 * floors@.len() + sum_of(floors@) + bumped
        }),
{
    let n = floors.len();
    let mut lengths: Vec<usize> = Vec::new();
    let mut assigned: usize = 0;
    let mut c: usize = 0;
    while c < n
        invariant
            n == floors@.len(),
            c <= n,
            4 * n + sum_of(floors@) <= atom_count,
            lengths@.len() == c,
            forall|q: int| 0 <= q < c ==> #[trigger] lengths@[q] == 4 + floors@[q],
            assigned == sum_of(lengths@),
            assigned == 4 * c + sum_of(floors@.take(c as int)),
        decreases n - c,
    {
        proof {
            assert(floors@.take(c + 1).drop_last() =~= floors@.take(c as int));
            lemma_sum_prefix_bound(floors@, c + 1);
            lemma_sum_push(lengths@, (4 + floors@[c as int]) as usize);
        }
        lengths.push(4 + floors[c]);
        assigned = assigned + 4 + floors[c];
        c += 1;
    }
    proof {
        assert(floors@.take(n as int) =~= floors@);
    }
    let extra = atom_count - assigned;
    let bumped = if extra <= n {
        extra
    } else {
        n
    };
    let ghost base = lengths@;
    proof {
        assert forall|q: int| 0 <= q < n implies #[trigger] lengths@[q] <= atom_count by {
            lemma_sum_member_bound(base, q);
        }
    }
    let mut i: usize = 0;
    while i < bumped
        invariant
            n == floors@.len(),
            bumped <= n,
            i <= bumped,
            is_order(order@, n as int),
            lengths@.len() == n,
            forall|q: int| 0 <= q < n ==> #[trigger] base[q] == 4 + floors@[q],
            forall|q: int|
                0 <= q < n ==> #[trigger] lengths@[q] == base[q] + if order@.take(i as int).contains(
                    q as usize,
                ) {
                    1int
                } else {
                    0int
                },
            sum_of(lengths@) == sum_of(base) + i,
            4 * n + sum_of(floors@) <= atom_count,
            sum_of(base) == 4 * n + sum_of(floors@),
            sum_of(base) + bumped <= atom_count,
            forall|q: int| 0 <= q < n ==> #[trigger] lengths@[q] <= atom_count,
        decreases bumped - i,
    {
        let chain = order[i];
        proof {
            assert(!order@.take(i as int).contains(chain)) by {
                if order@.take(i as int).contains(chain) {
                    let w = choose|w: int| 0 <= w < i && order@.take(i as int)[w] == chain;
                    assert(order@[w] == order@[i as int]);
                }
            }
            assert(chain < n);
            assert(lengths@[chain as int] == base[chain as int]);
            lemma_sum_member_bound(lengths@, chain as int);
            lemma_sum_bump(lengths@, chain as int);
            assert(order@.take(i + 1) =~= order@.take(i as int).push(chain));
        }
        let ghost before = lengths@;
        let bumped_length = lengths[chain] + 1;
        lengths.set(chain, bumped_length);
        proof {
            broadcast use vstd::seq_lib::lemma_seq_contains_after_push;

            assert forall|q: int| 0 <= q < n implies #[trigger] lengths@[q] == base[q] + if order@.take(
                i + 1,
            ).contains(q as usize) {
                1int
            } else {
                0int
            } by {
                assert(order@.take(i + 1) == order@.take(i as int).push(chain));
                if q != chain {
                    assert(lengths@[q] == before[q]);
                    assert((q as usize) != chain);
                }
            }
            assert forall|q: int| 0 <= q < n implies #[trigger] lengths@[q] <= atom_count by {
                lemma_sum_member_bound(lengths@, q);
            }
        }
        i += 1;
    }
    lengths
}

proof fn lemma_sum_prefix_bound(s: Seq<usize>, k: int)
    requires
        0 <= k <= s.len(),
    ensures
        sum_of(s.take(k)) <= sum_of(s),
    decreases s.len() - k,
{
    if k < s.len() {
        lemma_sum_prefix_bound(s, k + 1);
        assert(s.take(k + 1).drop_last() =~= s.take(k));
    } else {
        assert(s.take(k) =~= s);
    }
}

proof fn lemma_sum_nonneg(s: Seq<usize>)
    ensures
        sum_of(s) >= 0,
    decreases s.len(),
{
    if s.len() > 0 {
        lemma_sum_nonneg(s.drop_last());
    }
}

proof fn lemma_sum_member_bound(s: Seq<usize>, j: int)
    requires
        0 <= j < s.len(),
    ensures
        s[j] <= sum_of(s),
    decreases s.len(),
{
    lemma_sum_nonneg(s.drop_last());
    if j < s.len() - 1 {
        lemma_sum_member_bound(s.drop_last(), j);
    }
}

/// The architecture with code 0 to 3: linear, ring, dendritic, bottlebrush.
pub open spec fn architecture_of(code: u32) -> PolymerArchitecture {
    if code == 0 {
        PolymerArchitecture::Linear
    } else if code == 1 {
        PolymerArchitecture::Ring
    } else if code == 2 {
        PolymerArchitecture::Dendritic
    } else {
        PolymerArchitecture::Bottlebrush
    }
}

/// `lengths` are the chain lengths that `apportion_lengths` gives for these shares.
pub open spec fn apportioned(
    lengths: Seq<usize>,
    atom_count: int,
    floors: Seq<usize>,
    order: Seq<usize>,
) -> bool {
    let extra = atom_count - 4 * floors.len() - sum_of(floors);
    let bumped = if extra <= floors.len() {
        extra
    } else {
        floors.len() as int
    };
    &&& lengths.len() == floors.len()
    &&& forall|c: int|
        0 <= c < floors.len() ==> #[trigger] lengths[c] == 4 + floors[c] + if order.take(
            bumped,
        ).contains(c as usize) {
            1int
        } else {
            0int
        }
    &&& sum_of(lengths) == 4 * floors.len() + sum_of(floors) + bumped
}

proof fn lemma_total_is_sum(s: Seq<usize>, k: int)
    requires
        0 <= k <= s.len(),
    ensures
        chain_start(s, k) == sum_of(s.take(k)),
    decreases k,
{
    if k > 0 {
        lemma_total_is_sum(s, k - 1);
        assert(s.take(k).drop_last() =~= s.take(k - 1));
    }
}

/// The demo ensemble: `chain_count` chains sharing `atom_count` beads, at least four each,
/// the rest shared out by `floors` (whole parts of the chains' shares) and `order` (chains
/// by decreasing fractional part), typed by morphology role. `settings_ok` says whether the
/// dispersity and target density are usable, `box_length_ok` whether the box derived from
/// them is positive and finite.
pub fn build_polymer_topology(
    atom_count: usize,
    chain_count: usize,
    settings_ok: bool,
    floors: &[usize],
    order: &[usize],
    architecture: u32,
    box_length_ok: bool,
    morphology: PolymerMorphology,
) -> (r: Result<PolymerTopology, EvaluationError>)
    requires
        4 * chain_count <= usize::MAX,
        chain_count > 0 && 4 * chain_count <= atom_count && settings_ok ==> floors@.len()
            == chain_count && is_order(order@, chain_count as int) && 4 * chain_count + sum_of(floors@)
            <= atom_count,
    ensures
        !(chain_count > 0 && 4 * chain_count <= atom_count && settings_ok) ==> (r matches Err(
            EvaluationError::InvalidIndividual(msg),
        ) && msg@ == "polymer systems require at least four beads per chain"@),
        chain_count > 0 && 4 * chain_count <= atom_count && settings_ok && architecture > 3 ==> (
        r matches Err(EvaluationError::InvalidIndividual(msg)) && msg@
            == "unknown polymer architecture"@),
        chain_count > 0 && 4 * chain_count <= atom_count && settings_ok && architecture <= 3
            && !box_length_ok ==> (r matches Err(EvaluationError::InvalidIndividual(msg)) && msg@
            == "box length must be positive and finite"@),
        chain_count > 0 && 4 * chain_count <= atom_count && settings_ok && architecture <= 3
            && box_length_ok && !morphology_ok(morphology) ==> (r matches Err(
            EvaluationError::InvalidIndividual(msg),
        ) && msg@ == "polymer morphology parameters are outside supported bounds"@),
        chain_count > 0 && 4 * chain_count <= atom_count && settings_ok && architecture <= 3
            && box_length_ok && morphology_ok(morphology) ==> (r matches Ok(t) && t.wf()
            && apportioned(t.lengths(), atom_count as int, floors@, order@) && t.arch()
            == architecture_of(architecture) && t.morph() == morphology && forall|c: int, a: int|
            #![trigger t.bead_types()[a], chain_start(t.lengths(), c)]
            0 <= c < t.lengths().len() && 0 <= a && chain_start(t.lengths(), c) <= a
                < chain_start(t.lengths(), c + 1) ==> t.bead_types()[a] == role_of(
                t.arch(),
                a - chain_start(t.lengths(), c),
                nbrs(t.bond_seq(), a).len() as int,
                spec_backbone_length(t.lengths()[c] as int, t.morph()),
            )),
{
    if chain_count == 0 || atom_count < 4 * chain_count || !settings_ok {
        return Err(
            EvaluationError::InvalidIndividual(
                "polymer systems require at least four beads per chain".to_owned(),
            ),
        );
    }
    let lengths = apportion_lengths(atom_count, floors, order);
    let arch = match PolymerArchitecture::from_code(architecture) {
        Some(arch) => arch,
        None => {
            return Err(
                EvaluationError::InvalidIndividual("unknown polymer architecture".to_owned()),
            );
        },
    };
    proof {
        lemma_total_is_sum(lengths@, lengths@.len() as int);
        assert(lengths@.take(lengths@.len() as int) =~= lengths@);
        assert forall|c: int| 0 <= c < lengths@.len() implies #[trigger] lengths@[c] >= 2 by {}
    }
    let ghost lengths_view = lengths@;
    match PolymerTopology::with_morphology(lengths, box_length_ok, arch, morphology) {
        Ok(t) => {
            let r = with_demo_bead_types(t);
            proof {
                assert(lengths_view.len() > 0);
            }
            r
        },
        Err(e) => Err(e),
    }
}

/// A bead at or past the total lies in no chain.
proof fn lemma_past_all_chains(lengths: Seq<usize>, a: int)
    requires
        a >= total_beads(lengths),
    ensures
        forall|c: int| 0 <= c < lengths.len() ==> a >= #[trigger] chain_start(lengths, c + 1),
{
    assert forall|c: int| 0 <= c < lengths.len() implies a >= #[trigger] chain_start(lengths, c + 1) by {
        lemma_chain_start_monotone(lengths, c + 1, lengths.len() as int);
    }
}

/// Every bead below the total lies in exactly one chain: the chain whose range holds it.
pub proof fn lemma_bead_in_chain(lengths: Seq<usize>, a: int)
    requires
        0 <= a < total_beads(lengths),
    ensures
        exists|c: int|
            0 <= c < lengths.len() && chain_start(lengths, c) <= a < #[trigger] chain_start(
                lengths,
                c + 1,
            ),
        forall|c: int, d: int|
            0 <= c < lengths.len() && 0 <= d < lengths.len() && chain_start(lengths, c) <= a
                < #[trigger] chain_start(lengths, c + 1) && chain_start(lengths, d) <= a
                < #[trigger] chain_start(lengths, d + 1) ==> c == d,
{
    lemma_bead_below(lengths, a, lengths.len() as int);
    assert forall|c: int, d: int|
        0 <= c < lengths.len() && 0 <= d < lengths.len() && chain_start(lengths, c) <= a
            < #[trigger] chain_start(lengths, c + 1) && chain_start(lengths, d) <= a
            < #[trigger] chain_start(lengths, d + 1) implies c == d by {
        if c < d {
            lemma_chain_start_monotone(lengths, c + 1, d);
        } else if d < c {
            lemma_chain_start_monotone(lengths, d + 1, c);
        }
    }
}

proof fn lemma_bead_below(lengths: Seq<usize>, a: int, k: int)
    requires
        0 <= a < chain_start(lengths, k),
        0 <= k <= lengths.len(),
    ensures
        exists|c: int|
            0 <= c < k && chain_start(lengths, c) <= a < #[trigger] chain_start(lengths, c + 1),
    decreases k,
{
    if k > 0 {
        if a < chain_start(lengths, k - 1) {
            lemma_bead_below(lengths, a, k - 1);
        } else {
            assert(chain_start(lengths, (k - 1) + 1) == chain_start(lengths, k));
        }
    }
}

} // verus!
