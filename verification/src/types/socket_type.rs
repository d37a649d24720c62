use vstd::prelude::*;

verus! {

/// Port data type. Determines connection compatibility and visual color.
///
/// `Any` is compatible with everything (used by reroute nodes). Implicit
/// conversions are allowed between Float/Int/Bool and Float/Color/Vector.
#[derive(Clone, Copy, Debug, PartialEq, Eq, Hash, Structural)]
pub enum SocketType {
    Float,
    Int,
    Bool,
    Vector,
    Color,
    String,
    Shader,
    Geometry,
    Object,
    Image,
    Custom(u32),
    /// Pass-through type for reroute nodes — compatible with everything.
    Any,
}

/// The implicit conversions between distinct built-in types.
pub open spec fn implicit_conversion(a: SocketType, b: SocketType) -> bool {
    match (a, b) {
        (SocketType::Float, SocketType::Int) => true,
        (SocketType::Float, SocketType::Bool) => true,
        (SocketType::Int, SocketType::Float) => true,
        (SocketType::Int, SocketType::Bool) => true,
        (SocketType::Bool, SocketType::Float) => true,
        (SocketType::Bool, SocketType::Int) => true,
        (SocketType::Float, SocketType::Color) => true,
        (SocketType::Color, SocketType::Float) => true,
        (SocketType::Float, SocketType::Vector) => true,
        (SocketType::Vector, SocketType::Float) => true,
        _ => false,
    }
}

/// Whether a connection from an output of type `a` to an input of type `b`
/// is allowed.
pub open spec fn compatible(a: SocketType, b: SocketType) -> bool {
    ||| a == SocketType::Any
    ||| b == SocketType::Any
    ||| a == b
    ||| implicit_conversion(a, b)
}

pub open spec fn color_of(t: SocketType) -> [u8; 3] {
    match t {
        SocketType::Float => [160, 160, 160],
        SocketType::Int => [73, 154, 73],
        SocketType::Bool => [204, 169, 136],
        SocketType::Vector => [99, 99, 199],
        SocketType::Color => [200, 200, 40],
        SocketType::String => [111, 178, 204],
        SocketType::Shader => [57, 194, 57],
        SocketType::Geometry => [0, 208, 172],
        SocketType::Object => [237, 145, 36],
        SocketType::Image => [160, 100, 200],
        SocketType::Custom(_) => [128, 128, 128],
        SocketType::Any => [200, 200, 200],
    }
}

impl SocketType {
    /// Check if a connection from self (output) to other (input) is valid.
    pub fn is_compatible_with(&self, other: &SocketType) -> (r: bool)
        ensures
            r == compatible(*self, *other),
    {
        if *self == SocketType::Any || *other == SocketType::Any {
            return true;
        }
        if *self == *other {
            return true;
        }
        match (*self, *other) {
            (SocketType::Float, SocketType::Int) => true,
            (SocketType::Float, SocketType::Bool) => true,
            (SocketType::Int, SocketType::Float) => true,
            (SocketType::Int, SocketType::Bool) => true,
            (SocketType::Bool, SocketType::Float) => true,
            (SocketType::Bool, SocketType::Int) => true,
            (SocketType::Float, SocketType::Color) => true,
            (SocketType::Color, SocketType::Float) => true,
            (SocketType::Float, SocketType::Vector) => true,
            (SocketType::Vector, SocketType::Float) => true,
            _ => false,
        }
    }

    /// Default socket color as [r, g, b].
    pub fn default_color(&self) -> (c: [u8; 3])
        ensures
            c == color_of(*self),
    {
        match self {
            SocketType::Float => [160, 160, 160],
            SocketType::Int => [73, 154, 73],
            SocketType::Bool => [204, 169, 136],
            SocketType::Vector => [99, 99, 199],
            SocketType::Color => [200, 200, 40],
            SocketType::String => [111, 178, 204],
            SocketType::Shader => [57, 194, 57],
            SocketType::Geometry => [0, 208, 172],
            SocketType::Object => [237, 145, 36],
            SocketType::Image => [160, 100, 200],
            SocketType::Custom(_) => [128, 128, 128],
            SocketType::Any => [200, 200, 200],
        }
    }
}

/// Compatibility does not depend on which side is the output: a type pair
/// that may be connected one way may be connected the other way too.
pub proof fn lemma_compatible_symmetric(a: SocketType, b: SocketType)
    ensures
        compatible(a, b) == compatible(b, a),
{
}

/// Two distinct types, neither of them `Any`, can be connected exactly when
/// both lie in the numeric family Float/Int/Bool, or both lie in the family
/// Float/Color/Vector and one of them is Float: no other pair converts.
pub proof fn lemma_compatible_conversions(a: SocketType, b: SocketType)
    requires
        a != b,
        a != SocketType::Any,
        b != SocketType::Any,
    ensures
        compatible(a, b) <==> ({
            ||| (a == SocketType::Float || a == SocketType::Int || a == SocketType::Bool) && (b == SocketType::Float || b
                == SocketType::Int || b == SocketType::Bool)
            ||| (a == SocketType::Float || a == SocketType::Color || a == SocketType::Vector) && (b == SocketType::Float || b
                == SocketType::Color || b == SocketType::Vector) && (a == SocketType::Float || b == SocketType::Float)
        }),
{
}

/// Every type can be connected to its own type, and `Any` to every type.
pub proof fn lemma_compatible_reflexive_and_any(a: SocketType)
    ensures
        compatible(a, a),
        compatible(SocketType::Any, a),
        compatible(a, SocketType::Any),
{
}

} // verus!
