//! The parts of a puzzle that commands name.
//!
//! A command holds handles of faces, piece types and twist directions. What
//! they are called, and how a twist is written, is asked of a
//! [`PuzzleInfo`].

use vstd::prelude::*;

verus! {

/// Handle of a kind of puzzle.
#[derive(Debug, Clone, Copy, PartialEq, Eq, Hash, Structural)]
pub struct PuzzleType(pub u32);

/// Face of a puzzle.
#[derive(Debug, Clone, Copy, PartialEq, Eq, Hash, Structural)]
pub struct Face {
    /// The puzzle that the face belongs to.
    pub ty: PuzzleType,
    /// Number of the face within the puzzle.
    pub id: u8,
}

/// Type of piece of a puzzle.
#[derive(Debug, Clone, Copy, PartialEq, Eq, Hash, Structural)]
pub struct PieceType {
    /// The puzzle that the piece type belongs to.
    pub ty: PuzzleType,
    /// Number of the piece type within the puzzle.
    pub id: u8,
}

/// Direction in which a face of a puzzle can be twisted.
#[derive(Debug, Clone, Copy, PartialEq, Eq, Hash, Structural)]
pub struct TwistDirection {
    /// The puzzle that the direction belongs to.
    pub ty: PuzzleType,
    /// Number of the direction within the puzzle.
    pub id: u8,
}

/// Set of layers, one bit for each, counted from the face.
#[derive(Debug, Clone, Copy, PartialEq, Eq, Hash, Structural)]
pub struct LayerMask(pub u32);

/// The mask of the first `layer_count` layers.
pub open spec fn spec_all_layers(layer_count: u8) -> u32 {
    ((1u32 << (layer_count as u32)) - 1) as u32
}

impl LayerMask {
    /// Returns the mask of all the layers of a puzzle with `layer_count`
    /// layers.
    pub fn all(layer_count: u8) -> (mask: LayerMask)
        requires
            layer_count < 32,
        ensures
            mask.0 == spec_all_layers(layer_count),
    {
        let shift: u32 = layer_count as u32;
        assert((1u32 << shift) >= 1) by (bit_vector)
            requires
                shift < 32,
        ;
        LayerMask((1u32 << shift) - 1)
    }

    /// Returns the layers of the mask that a puzzle with `layer_count`
    /// layers has.
    pub fn restricted_to(self, layer_count: u8) -> (mask: LayerMask)
        requires
            layer_count < 32,
        ensures
            mask.0 == self.0 & spec_all_layers(layer_count),
    {
        LayerMask(self.0 & LayerMask::all(layer_count).0)
    }
}

/// Pieces picked out by face, by layer and by piece type. A mask of zero
/// leaves that way of picking unused.
#[derive(Debug, Clone, Copy, PartialEq, Eq, Hash, Structural)]
pub struct Selection {
    /// One bit for each face picked.
    pub face_mask: u32,
    /// One bit for each layer picked.
    pub layer_mask: u32,
    /// One bit for each piece type picked.
    pub piece_type_mask: u32,
}

/// What a puzzle tells about its parts.
///
/// The methods carry no contract: whatever they answer is passed on.
pub trait PuzzleInfo {
    /// The puzzle that is taken where a command names none.
    fn default_puzzle_type(&self) -> PuzzleType;

    /// Name of a puzzle.
    fn puzzle_name(&self, ty: PuzzleType) -> String;

    /// Number of layers of a puzzle.
    fn layer_count(&self, ty: PuzzleType) -> u8;

    /// The first face of a puzzle.
    fn first_face(&self, ty: PuzzleType) -> Face;

    /// The face of a puzzle with the given name.
    fn face_from_name(&self, ty: PuzzleType, name: &str) -> Face;

    /// Name of a face.
    fn face_name(&self, face: Face) -> String;

    /// Symbol of a face.
    fn face_symbol(&self, face: Face) -> String;

    /// The piece type that is picked where none is named.
    fn default_piece_type(&self, ty: PuzzleType) -> PieceType;

    /// The piece type of a puzzle with the given name.
    fn piece_type_from_name(&self, ty: PuzzleType, name: &str) -> PieceType;

    /// Name of a piece type.
    fn piece_type_name(&self, piece_type: PieceType) -> String;

    /// The twist direction of a puzzle with the given name.
    fn direction_from_name(&self, ty: PuzzleType, name: &str) -> TwistDirection;

    /// Name of a twist direction.
    fn direction_name(&self, direction: TwistDirection) -> String;

    /// The layers that are twisted where none are named.
    fn default_layers(&self) -> LayerMask;

    /// Short text for a set of layers.
    fn layers_description(&self, layers: LayerMask) -> String;

    /// How the twist of a face is written, or why there is no such twist.
    fn twist_notation(&self, face: Face, direction: TwistDirection, layers: LayerMask) -> Result<
        String,
        String,
    >;

    /// How the twist that brings a face to the centre is written, or why
    /// there is no such twist.
    fn recenter_notation(&self, face: Face) -> Result<String, String>;
}

} // verus!
