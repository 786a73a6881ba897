use vstd::prelude::*;

verus! {

/// What a path met at its current vertex, as classified by the caller from
/// the hit material and, for dielectrics, from the refraction test and the
/// one uniform draw of the Fresnel choice.
#[derive(Clone, Copy, Debug, PartialEq, Eq, Structural)]
pub enum SurfaceEvent {
    /// The ray left the scene.
    Miss,
    /// An emissive surface.
    Emissive,
    /// A diffuse surface; `reflective` when its specular weight is nonzero.
    Diffuse { reflective: bool },
    /// A dielectric interface. `total_internal_reflection` when Snell's law
    /// has no solution; otherwise `refract` when the uniform draw fell below
    /// the transmittance `1 - R`.
    Dielectric { total_internal_reflection: bool, refract: bool },
    /// The combined encoding: an emissive flag, nonzero reflectivity and
    /// nonzero transmittance, with the same refraction outcomes.
    Combined {
        emissive: bool,
        reflective: bool,
        transmissive: bool,
        total_internal_reflection: bool,
        refract: bool,
    },
    /// A procedural checkerboard, which ends the path.
    Checker,
}

/// What the integrator does next.
#[derive(Clone, Copy, Debug, PartialEq, Eq, Structural)]
pub enum Action {
    /// Weight by the sky radiance along the ray and stop.
    SampleSky,
    /// Weight by the emitted radiance and stop.
    Emit,
    /// Weight by the surface's attenuation and stop.
    Absorb,
    /// Continue with the mirror reflection `d - 2(d.n)n`.
    Reflect,
    /// Continue with the refracted ray, entering the far medium.
    Refract,
}

impl Action {
    /// Whether the path ends with this action.
    pub open spec fn ends_spec(self) -> bool {
        match self {
            Action::Reflect | Action::Refract => false,
            _ => true,
        }
    }
}

/// The scattering rule at a dielectric interface.
pub open spec fn dielectric_spec(total_internal_reflection: bool, refract: bool) -> Action {
    if total_internal_reflection || !refract {
        Action::Reflect
    } else {
        Action::Refract
    }
}

/// The scattering rule for every kind of vertex.
pub open spec fn scatter_spec(ev: SurfaceEvent) -> Action {
    match ev {
        SurfaceEvent::Miss => Action::SampleSky,
        SurfaceEvent::Emissive => Action::Emit,
        SurfaceEvent::Diffuse { reflective } => if reflective {
            Action::Reflect
        } else {
            Action::Absorb
        },
        SurfaceEvent::Dielectric { total_internal_reflection, refract } => dielectric_spec(
            total_internal_reflection,
            refract,
        ),
        SurfaceEvent::Combined {
            emissive,
            reflective,
            transmissive,
            total_internal_reflection,
            refract,
        } => if emissive {
            Action::Emit
        } else if transmissive {
            dielectric_spec(total_internal_reflection, refract)
        } else if reflective {
            Action::Reflect
        } else {
            Action::Absorb
        },
        SurfaceEvent::Checker => Action::Absorb,
    }
}

/// Decides what the path does at a vertex.
pub fn scatter(ev: SurfaceEvent) -> (r: Action)
    ensures
        r == scatter_spec(ev),
{
    match ev {
        SurfaceEvent::Miss => Action::SampleSky,
        SurfaceEvent::Emissive => Action::Emit,
        SurfaceEvent::Diffuse { reflective } => {
            if reflective {
                Action::Reflect
            } else {
                Action::Absorb
            }
        },
        SurfaceEvent::Dielectric { total_internal_reflection, refract } => {
            dielectric(total_internal_reflection, refract)
        },
        SurfaceEvent::Combined {
            emissive,
            reflective,
            transmissive,
            total_internal_reflection,
            refract,
        } => {
            if emissive {
                Action::Emit
            } else if transmissive {
                dielectric(total_internal_reflection, refract)
            } else if reflective {
                Action::Reflect
            } else {
                Action::Absorb
            }
        },
        SurfaceEvent::Checker => Action::Absorb,
    }
}

fn dielectric(total_internal_reflection: bool, refract: bool) -> (r: Action)
    ensures
        r == dielectric_spec(total_internal_reflection, refract),
{
    if total_internal_reflection || !refract {
        Action::Reflect
    } else {
        Action::Refract
    }
}

/// Progress of one path sample: how many vertices it has handled out of
/// its budget, and whether it has ended.
#[derive(Clone, Copy, Debug, PartialEq, Eq, Structural)]
pub struct PathState {
    pub vertices: u32,
    pub max_depth: u32,
    pub ended: bool,
    pub inside_medium: bool,
}

impl PathState {
    pub open spec fn wf(self) -> bool {
        &&& self.vertices <= self.max_depth
        &&& self.vertices == self.max_depth ==> self.ended
    }

    /// A fresh path in the ambient medium, allowed `max_depth` vertices; a
    /// budget of zero ends it before its first intersection.
    pub fn new(max_depth: u32) -> (r: PathState)
        ensures
            r.wf(),
            r.vertices == 0,
            r.max_depth == max_depth,
            r.ended == (max_depth == 0),
            !r.inside_medium,
    {
        PathState { vertices: 0, max_depth, ended: max_depth == 0, inside_medium: false }
    }

    /// Handles the vertex the path met: counts it, decides the action, and
    /// ends the path on a terminating action or when the budget is spent
    /// (the throughput so far is then the sample). A refraction flips the
    /// medium the path travels in.
    pub fn step(&mut self, ev: SurfaceEvent) -> (r: Action)
        requires
            old(self).wf(),
            !old(self).ended,
        ensures
            final(self).wf(),
            r == scatter_spec(ev),
            final(self).vertices == old(self).vertices + 1,
            final(self).max_depth == old(self).max_depth,
            final(self).ended == (r.ends_spec() || final(self).vertices == final(self).max_depth),
            final(self).inside_medium == (old(self).inside_medium != (r == Action::Refract)),
    {
        let r = scatter(ev);
        self.vertices = self.vertices + 1;
        let ends = match r {
            Action::Reflect | Action::Refract => false,
            _ => true,
        };
        self.ended = ends || self.vertices == self.max_depth;
        if let Action::Refract = r {
            self.inside_medium = !self.inside_medium;
        }
        r
    }
}

} // verus!
