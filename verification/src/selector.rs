//! Decoding of the integer selectors that pick a planet and a render pass.

use vstd::prelude::*;

verus! {

/// The five planets that can be drawn.
#[derive(Clone, Copy, Debug, PartialEq, Eq, Structural)]
pub enum PlanetKind {
    Rocky,
    Gaseous,
    Bioluminescent,
    Ringed,
    Icy,
}

/// The planet that a selector value stands for, if any.
pub open spec fn planet_kind_of(selector: int) -> Option<PlanetKind> {
    if selector == 0 {
        Some(PlanetKind::Rocky)
    } else if selector == 1 {
        Some(PlanetKind::Gaseous)
    } else if selector == 2 {
        Some(PlanetKind::Bioluminescent)
    } else if selector == 3 {
        Some(PlanetKind::Ringed)
    } else if selector == 4 {
        Some(PlanetKind::Icy)
    } else {
        None
    }
}

/// Decodes a planet selector. Values outside `0..=4` name no planet; the
/// caller then paints its neutral fallback colour.
pub fn planet_kind(selector: i32) -> (kind: Option<PlanetKind>)
    ensures
        kind == planet_kind_of(selector as int),
        kind.is_none() <==> (selector < 0 || selector > 4),
{
    match selector {
        0 => Some(PlanetKind::Rocky),
        1 => Some(PlanetKind::Gaseous),
        2 => Some(PlanetKind::Bioluminescent),
        3 => Some(PlanetKind::Ringed),
        4 => Some(PlanetKind::Icy),
        _ => None,
    }
}

impl PlanetKind {
    /// The selector value of this planet.
    pub open spec fn selector_of(self) -> int {
        match self {
            PlanetKind::Rocky => 0,
            PlanetKind::Gaseous => 1,
            PlanetKind::Bioluminescent => 2,
            PlanetKind::Ringed => 3,
            PlanetKind::Icy => 4,
        }
    }

    /// The selector value of this planet.
    pub fn selector(self) -> (selector: i32)
        ensures
            selector == self.selector_of(),
            planet_kind_of(selector as int) == Some(self),
    {
        match self {
            PlanetKind::Rocky => 0,
            PlanetKind::Gaseous => 1,
            PlanetKind::Bioluminescent => 2,
            PlanetKind::Ringed => 3,
            PlanetKind::Icy => 4,
        }
    }
}

/// The three roles in which the one mesh is drawn.
#[derive(Clone, Copy, Debug, PartialEq, Eq, Structural)]
pub enum RenderMode {
    /// The planet itself: vertices pass through unchanged.
    Body,
    /// The ring system: vertices are remapped onto a thin annulus.
    Ring,
    /// The moon: vertices are shrunk and moved onto the orbit.
    Moon,
}

/// The render mode that a selector value stands for. Every value other than
/// those of the ring and the moon draws the body.
pub open spec fn render_mode_of(selector: int) -> RenderMode {
    if selector == 1 {
        RenderMode::Ring
    } else if selector == 2 {
        RenderMode::Moon
    } else {
        RenderMode::Body
    }
}

/// Decodes a render-mode selector.
pub fn render_mode(selector: i32) -> (mode: RenderMode)
    ensures
        mode == render_mode_of(selector as int),
{
    match selector {
        1 => RenderMode::Ring,
        2 => RenderMode::Moon,
        _ => RenderMode::Body,
    }
}

impl RenderMode {
    /// The selector value of this mode.
    pub open spec fn selector_of(self) -> int {
        match self {
            RenderMode::Body => 0,
            RenderMode::Ring => 1,
            RenderMode::Moon => 2,
        }
    }

    /// The selector value that a pass of this mode puts into its uniforms.
    pub fn selector(self) -> (selector: i32)
        ensures
            selector == self.selector_of(),
            render_mode_of(selector as int) == self,
    {
        match self {
            RenderMode::Body => 0,
            RenderMode::Ring => 1,
            RenderMode::Moon => 2,
        }
    }
}

/// The passes of one frame for a planet selector: the body always, then the
/// rings for the ringed planet alone, then the moon for the rocky planet
/// alone.
pub open spec fn passes_of(planet_type: int) -> Seq<RenderMode> {
    match planet_kind_of(planet_type) {
        Some(PlanetKind::Ringed) => seq![RenderMode::Body, RenderMode::Ring],
        Some(PlanetKind::Rocky) => seq![RenderMode::Body, RenderMode::Moon],
        _ => seq![RenderMode::Body],
    }
}

/// Lists the passes to draw in one frame, in drawing order.
pub fn frame_passes(planet_type: i32) -> (passes: Vec<RenderMode>)
    ensures
        passes@ == passes_of(planet_type as int),
{
    let mut passes: Vec<RenderMode> = Vec::new();
    passes.push(RenderMode::Body);
    match planet_kind(planet_type) {
        Some(PlanetKind::Ringed) => {
            passes.push(RenderMode::Ring);
        },
        Some(PlanetKind::Rocky) => {
            passes.push(RenderMode::Moon);
        },
        _ => {},
    }
    assert(passes@ =~= passes_of(planet_type as int));
    passes
}

/// The planet selector after the five planet keys were polled: that of the
/// highest-numbered key that is down, or the current one if none is.
pub open spec fn selected_planet(current: int, pressed: Seq<bool>) -> int {
    if pressed[4] {
        4
    } else if pressed[3] {
        3
    } else if pressed[2] {
        2
    } else if pressed[1] {
        1
    } else if pressed[0] {
        0
    } else {
        current
    }
}

/// Updates the planet selector from the state of the five planet keys, key
/// `i` selecting planet `i`.
pub fn select_planet(current: i32, pressed: [bool; 5]) -> (next: i32)
    ensures
        next == selected_planet(current as int, pressed@),
{
    let mut next: i32 = current;
    if pressed[0] {
        next = 0;
    }
    if pressed[1] {
        next = 1;
    }
    if pressed[2] {
        next = 2;
    }
    if pressed[3] {
        next = 3;
    }
    if pressed[4] {
        next = 4;
    }
    next
}

/// A selector names a planet exactly when it lies in `0..=4`, and decoding
/// undoes encoding.
pub proof fn lemma_planet_selectors(selector: int, kind: PlanetKind)
    ensures
        planet_kind_of(selector).is_some() <==> 0 <= selector <= 4,
        planet_kind_of(selector) == Some(kind) <==> selector == kind.selector_of(),
        planet_kind_of(kind.selector_of()) == Some(kind),
{
}

/// The rings are drawn for the ringed planet alone and the moon for the
/// rocky planet alone; the body is drawn first, whatever the selector.
pub proof fn lemma_passes(planet_type: int)
    ensures
        passes_of(planet_type)[0] == RenderMode::Body,
        passes_of(planet_type).contains(RenderMode::Ring) <==> planet_kind_of(planet_type) == Some(
            PlanetKind::Ringed,
        ),
        passes_of(planet_type).contains(RenderMode::Moon) <==> planet_kind_of(planet_type) == Some(
            PlanetKind::Rocky,
        ),
{
    let passes = passes_of(planet_type);
    if passes.len() > 1 {
        assert(passes[1] == RenderMode::Ring || passes[1] == RenderMode::Moon);
    }
}

} // verus!
