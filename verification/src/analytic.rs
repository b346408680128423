use vstd::prelude::*;

use crate::text::str_eq;

verus! {

/// The kind of an equilibrium of the bounded-neighbourhood model (Schelling 1971, §3).
#[derive(Clone, Copy, PartialEq, Eq, Debug, Structural)]
pub enum EquilibriumKind {
    /// `(W_max, 0)`: all white.
    AllWhite,
    /// `(0, B_max)`: all black.
    AllBlack,
    /// An intersection of the two reaction curves.
    Mixed,
    /// `(0, 0)`: the empty neighbourhood.
    Empty,
}

/// Stability of an equilibrium.
#[derive(Clone, Copy, PartialEq, Eq, Debug, Structural)]
pub enum Stability {
    Stable,
    Unstable,
    Saddle,
}

/// The four regions of the phase plane, by which groups can be content there.
#[derive(Clone, Copy, PartialEq, Eq, Debug, Structural)]
pub enum ViabilityRegion {
    /// Inside both reaction curves: both groups flow in.
    BothViable,
    /// `B <= B_W(W)` and `W > W_B(B)`: whites flow in, blacks leave.
    WViableOnly,
    /// `W <= W_B(B)` and `B > B_W(W)`: blacks flow in, whites leave.
    BViableOnly,
    /// Outside both curves: both groups leave.
    NeitherViable,
}

/// The four tipping types of the paper's Fig. 30-32.
#[derive(Clone, Copy, PartialEq, Eq, Debug, Structural)]
pub enum TippingType {
    /// In-tipping only: the minority starts to move in on its own.
    InTippingOnly,
    /// Out-tipping only: past a threshold the majority leaves in a chain.
    OutTippingOnly,
    /// Both.
    Both,
    /// Neither: a stable mixed equilibrium exists and the endpoints are stable.
    Neither,
}

/// The tipping classification of a phase configuration.
#[derive(Clone, Copy, PartialEq, Eq, Debug, Structural)]
pub struct TippingClassification {
    pub tipping_type: TippingType,
    pub all_white_stable: bool,
    pub mixed_stable_exists: bool,
}

/// The sign of a real quantity; `Zero` also stands for a value whose sign is unknown.
#[derive(Clone, Copy, PartialEq, Eq, Debug, Structural)]
pub enum Sign {
    Negative,
    Zero,
    Positive,
}

impl ViabilityRegion {
    /// The region of a point from whether each group is content there (`w_ok`: the number
    /// of blacks is within what whites tolerate; `b_ok`: the number of whites is within
    /// what blacks tolerate).
    pub fn from_viability(w_ok: bool, b_ok: bool) -> (r: ViabilityRegion)
        ensures
            r == (if w_ok && b_ok {
                ViabilityRegion::BothViable
            } else if w_ok {
                ViabilityRegion::WViableOnly
            } else if b_ok {
                ViabilityRegion::BViableOnly
            } else {
                ViabilityRegion::NeitherViable
            }),
    {
        match (w_ok, b_ok) {
            (true, true) => ViabilityRegion::BothViable,
            (true, false) => ViabilityRegion::WViableOnly,
            (false, true) => ViabilityRegion::BViableOnly,
            (false, false) => ViabilityRegion::NeitherViable,
        }
    }

    /// Direction of flow of whites and blacks in the region: +1 inflow, -1 outflow.
    pub fn signs(&self) -> (s: (i8, i8))
        ensures
            s.0 == (if *self == ViabilityRegion::BothViable || *self == ViabilityRegion::WViableOnly {
                1i8
            } else {
                -1i8
            }),
            s.1 == (if *self == ViabilityRegion::BothViable || *self == ViabilityRegion::BViableOnly {
                1i8
            } else {
                -1i8
            }),
    {
        match self {
            ViabilityRegion::BothViable => (1, 1),
            ViabilityRegion::WViableOnly => (1, -1),
            ViabilityRegion::BViableOnly => (-1, 1),
            ViabilityRegion::NeitherViable => (-1, -1),
        }
    }
}

/// Whites can be content exactly where they flow in, and likewise blacks.
pub proof fn lemma_region_signs_agree(w_ok: bool, b_ok: bool)
    ensures
        ({
            let r = if w_ok && b_ok {
                ViabilityRegion::BothViable
            } else if w_ok {
                ViabilityRegion::WViableOnly
            } else if b_ok {
                ViabilityRegion::BViableOnly
            } else {
                ViabilityRegion::NeitherViable
            };
            &&& (r == ViabilityRegion::BothViable || r == ViabilityRegion::WViableOnly) == w_ok
            &&& (r == ViabilityRegion::BothViable || r == ViabilityRegion::BViableOnly) == b_ok
        }),
{
}

/// The stability of a mixed equilibrium from the signs of `h(W) = W - W_B(B_W(W))` just
/// below and just above it: crossing from positive to negative is stable, from negative
/// to positive unstable, anything else (an even-order zero, or unknown signs) a saddle.
pub fn stability_from_crossing(below: Sign, above: Sign) -> (s: Stability)
    ensures
        s == (if below == Sign::Positive && above == Sign::Negative {
            Stability::Stable
        } else if below == Sign::Negative && above == Sign::Positive {
            Stability::Unstable
        } else {
            Stability::Saddle
        }),
{
    if below == Sign::Positive && above == Sign::Negative {
        Stability::Stable
    } else if below == Sign::Negative && above == Sign::Positive {
        Stability::Unstable
    } else {
        Stability::Saddle
    }
}

/// The tipping type from whether in-tipping and out-tipping occur.
pub open spec fn spec_tipping_type(in_tipping: bool, out_tipping: bool) -> TippingType {
    if in_tipping && out_tipping {
        TippingType::Both
    } else if in_tipping {
        TippingType::InTippingOnly
    } else if out_tipping {
        TippingType::OutTippingOnly
    } else {
        TippingType::Neither
    }
}

/// Stability of the first all-white equilibrium of the list, if there is one.
pub open spec fn first_all_white(eqs: Seq<(EquilibriumKind, Stability)>) -> Option<Stability>
    decreases eqs.len(),
{
    if eqs.len() == 0 {
        None
    } else if eqs[0].0 == EquilibriumKind::AllWhite {
        Some(eqs[0].1)
    } else {
        first_all_white(eqs.drop_first())
    }
}

/// Tipping classification from the equilibria (kind and stability, in the order found)
/// and the geometric in-tipping condition (the peak of the blacks' reaction curve reaches
/// `W_max`).  The all-white endpoint counts as stable when absent; out-tipping occurs
/// exactly when no stable mixed equilibrium exists.
pub fn classify_equilibria(eqs: &Vec<(EquilibriumKind, Stability)>, in_tipping: bool) -> (c: TippingClassification)
    ensures
        c.all_white_stable == match first_all_white(eqs@) {
            Some(s) => s == Stability::Stable,
            None => true,
        },
        c.mixed_stable_exists == exists|i: int|
            0 <= i < eqs@.len() && #[trigger] eqs@[i] == (EquilibriumKind::Mixed, Stability::Stable),
        c.tipping_type == spec_tipping_type(in_tipping, !c.mixed_stable_exists),
{
    let mut white: Option<Stability> = None;
    let mut mixed_stable = false;
    let mut i: usize = eqs.len();
    while i > 0
        invariant
            i <= eqs@.len(),
            white == first_all_white(eqs@.skip(i as int)),
            mixed_stable == exists|j: int|
                i <= j < eqs@.len() && #[trigger] eqs@[j] == (EquilibriumKind::Mixed, Stability::Stable),
        decreases i,
    {
        i = i - 1;
        let (kind, stab) = eqs[i];
        proof {
            assert(eqs@.skip(i as int).drop_first() =~= eqs@.skip(i + 1));
            assert(eqs@.skip(i as int)[0] == eqs@[i as int]);
        }
        if kind == EquilibriumKind::AllWhite {
            white = Some(stab);
        }
        if kind == EquilibriumKind::Mixed && stab == Stability::Stable {
            mixed_stable = true;
        }
    }
    proof {
        assert(eqs@.skip(0) =~= eqs@);
    }
    let all_white_stable = match white {
        Some(s) => s == Stability::Stable,
        None => true,
    };
    let out_tipping = !mixed_stable;
    let tipping_type = if in_tipping && out_tipping {
        TippingType::Both
    } else if in_tipping {
        TippingType::InTippingOnly
    } else if out_tipping {
        TippingType::OutTippingOnly
    } else {
        TippingType::Neither
    };
    TippingClassification { tipping_type, all_white_stable, mixed_stable_exists: mixed_stable }
}

/// CSV label of an equilibrium kind.
pub fn equilibrium_kind_label(kind: EquilibriumKind) -> (s: &'static str)
    ensures
        s@ == match kind {
            EquilibriumKind::AllWhite => "all_white"@,
            EquilibriumKind::AllBlack => "all_black"@,
            EquilibriumKind::Mixed => "mixed"@,
            EquilibriumKind::Empty => "empty"@,
        },
{
    match kind {
        EquilibriumKind::AllWhite => "all_white",
        EquilibriumKind::AllBlack => "all_black",
        EquilibriumKind::Mixed => "mixed",
        EquilibriumKind::Empty => "empty",
    }
}

/// CSV label of a stability class.
pub fn stability_label(s: Stability) -> (l: &'static str)
    ensures
        l@ == match s {
            Stability::Stable => "stable"@,
            Stability::Unstable => "unstable"@,
            Stability::Saddle => "saddle"@,
        },
{
    match s {
        Stability::Stable => "stable",
        Stability::Unstable => "unstable",
        Stability::Saddle => "saddle",
    }
}

/// CSV label of a phase-plane region.
pub fn region_label(r: ViabilityRegion) -> (l: &'static str)
    ensures
        l@ == match r {
            ViabilityRegion::BothViable => "both_viable"@,
            ViabilityRegion::WViableOnly => "w_viable_only"@,
            ViabilityRegion::BViableOnly => "b_viable_only"@,
            ViabilityRegion::NeitherViable => "neither_viable"@,
        },
{
    match r {
        ViabilityRegion::BothViable => "both_viable",
        ViabilityRegion::WViableOnly => "w_viable_only",
        ViabilityRegion::BViableOnly => "b_viable_only",
        ViabilityRegion::NeitherViable => "neither_viable",
    }
}

/// Label of a tipping type.
pub fn tipping_type_label(t: TippingType) -> (l: &'static str)
    ensures
        l@ == match t {
            TippingType::InTippingOnly => "in_tipping_only"@,
            TippingType::OutTippingOnly => "out_tipping_only"@,
            TippingType::Both => "both"@,
            TippingType::Neither => "neither"@,
        },
{
    match t {
        TippingType::InTippingOnly => "in_tipping_only",
        TippingType::OutTippingOnly => "out_tipping_only",
        TippingType::Both => "both",
        TippingType::Neither => "neither",
    }
}

/// Names of the presets of the paper's Figures 18-32, in order.
pub open spec fn preset_names() -> Seq<Seq<char>> {
    seq!["fig18"@, "fig19"@, "fig20"@, "fig21"@, "fig22"@, "fig23"@, "fig24"@, "fig25"@, "fig26"@, "fig27"@, "fig28"@, "fig29"@, "fig30a"@, "fig30b"@, "fig31"@, "fig32"@]
}

/// The names of the known presets.
pub fn all_names() -> (names: Vec<&'static str>)
    ensures
        names@.len() == preset_names().len(),
        forall|i: int| 0 <= i < names@.len() ==> #[trigger] names@[i]@ == preset_names()[i],
{
    let names = vec!["fig18", "fig19", "fig20", "fig21", "fig22", "fig23", "fig24", "fig25", "fig26", "fig27", "fig28", "fig29", "fig30a", "fig30b", "fig31", "fig32"];
    assert(names@.len() == 16);
    names
}

/// The position of `name` among the preset names, if it is one.
pub fn preset_index(name: &str) -> (res: Option<usize>)
    ensures
        match res {
            Some(i) => i < preset_names().len() && preset_names()[i as int] == name@
                && forall|j: int| 0 <= j < i ==> preset_names()[j] != name@,
            None => forall|j: int| 0 <= j < preset_names().len() ==> preset_names()[j] != name@,
        },
{
    let names = all_names();
    let mut i: usize = 0;
    while i < names.len()
        invariant
            names@.len() == preset_names().len(),
            forall|k: int| 0 <= k < names@.len() ==> #[trigger] names@[k]@ == preset_names()[k],
            i <= names@.len(),
            forall|j: int| 0 <= j < i ==> preset_names()[j] != name@,
        decreases names@.len() - i,
    {
        if str_eq(names[i], name) {
            return Some(i);
        }
        i = i + 1;
    }
    None
}

/// The preset names are pairwise distinct, so every name identifies one preset.
pub proof fn lemma_preset_names_distinct()
    ensures
        forall|i: int, j: int|
            0 <= i < j < preset_names().len() ==> preset_names()[i] != preset_names()[j],
{
    reveal_strlit("fig18");
    reveal_strlit("fig19");
    reveal_strlit("fig20");
    reveal_strlit("fig21");
    reveal_strlit("fig22");
    reveal_strlit("fig23");
    reveal_strlit("fig24");
    reveal_strlit("fig25");
    reveal_strlit("fig26");
    reveal_strlit("fig27");
    reveal_strlit("fig28");
    reveal_strlit("fig29");
    reveal_strlit("fig30a");
    reveal_strlit("fig30b");
    reveal_strlit("fig31");
    reveal_strlit("fig32");
    assert forall|i: int, j: int|
        0 <= i < j < preset_names().len() implies preset_names()[i] != preset_names()[j] by {
        let a = preset_names()[i];
        let b = preset_names()[j];
        if a.len() == b.len() {
            if a.len() == 5 {
                assert(a[4] != b[4] || a[3] != b[3]);
            } else {
                assert(a[5] != b[5] || a[4] != b[4]);
            }
        }
    }
}

} // verus!
