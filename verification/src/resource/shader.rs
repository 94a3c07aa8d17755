use vstd::prelude::*;

verus! {

/// The type of a value that a shader takes as input.
#[derive(Clone, Copy, PartialEq, Eq, Structural, Debug)]
pub enum ShaderDataType {
    Int,
    Float,
    Vec2F,
    Vec3F,
    Vec4F,
    Mat2F,
    Mat3F,
    Mat4F,
}

/// A uniform or an attribute of a shader program: its location and its type.
pub struct ShaderInput {
    pub id: i32,
    pub data_type: ShaderDataType,
}

} // verus!
