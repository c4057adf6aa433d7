//! Commands, their texts and their stored forms.

use hyperspeedcube::colors::{ColorsUi, DefaultColor, PointerOver};
use hyperspeedcube::commands::{
    clamp_layers, describe_clear, describe_free_twist, describe_notation, Command, PuzzleCommand,
    PuzzleCommandSerde, SelectCategory, SelectHow, SelectThing, SelectThingSerde,
    PARTIAL_SCRAMBLE_MOVE_COUNT_MAX, PARTIAL_SCRAMBLE_MOVE_COUNT_MIN,
};
use hyperspeedcube::puzzle::{
    Face, LayerMask, PieceType, PuzzleInfo, PuzzleType, Selection, TwistDirection,
};
use hyperspeedcube::view::{HintWidget, RenderEngine};

/// A cube with three layers: faces R, L, U, D, F, B; directions CW and CCW;
/// piece types centre, edge and corner.
struct Cube;

const FACES: [(&str, &str); 6] =
    [("Right", "R"), ("Left", "L"), ("Up", "U"), ("Down", "D"), ("Front", "F"), ("Back", "B")];
const DIRECTIONS: [&str; 2] = ["CW", "CCW"];
const PIECE_TYPES: [&str; 3] = ["centre", "edge", "corner"];
const CUBE: PuzzleType = PuzzleType(3);

impl PuzzleInfo for Cube {
    fn default_puzzle_type(&self) -> PuzzleType {
        CUBE
    }

    fn puzzle_name(&self, ty: PuzzleType) -> String {
        format!("{0}x{0}x{0}", ty.0)
    }

    fn layer_count(&self, ty: PuzzleType) -> u8 {
        ty.0 as u8
    }

    fn first_face(&self, ty: PuzzleType) -> Face {
        Face { ty, id: 0 }
    }

    fn face_from_name(&self, ty: PuzzleType, name: &str) -> Face {
        Face { ty, id: FACES.iter().position(|f| f.0 == name).unwrap_or(0) as u8 }
    }

    fn face_name(&self, face: Face) -> String {
        FACES[face.id as usize].0.to_string()
    }

    fn face_symbol(&self, face: Face) -> String {
        FACES[face.id as usize].1.to_string()
    }

    fn default_piece_type(&self, ty: PuzzleType) -> PieceType {
        PieceType { ty, id: 0 }
    }

    fn piece_type_from_name(&self, ty: PuzzleType, name: &str) -> PieceType {
        PieceType { ty, id: PIECE_TYPES.iter().position(|p| *p == name).unwrap_or(0) as u8 }
    }

    fn piece_type_name(&self, piece_type: PieceType) -> String {
        PIECE_TYPES[piece_type.id as usize].to_string()
    }

    fn direction_from_name(&self, ty: PuzzleType, name: &str) -> TwistDirection {
        TwistDirection { ty, id: DIRECTIONS.iter().position(|d| *d == name).unwrap_or(0) as u8 }
    }

    fn direction_name(&self, direction: TwistDirection) -> String {
        DIRECTIONS[direction.id as usize].to_string()
    }

    fn default_layers(&self) -> LayerMask {
        LayerMask(1)
    }

    fn layers_description(&self, layers: LayerMask) -> String {
        format!("{{{:b}}}", layers.0)
    }

    fn twist_notation(
        &self,
        face: Face,
        direction: TwistDirection,
        layers: LayerMask,
    ) -> Result<String, String> {
        if layers.0 == 0 {
            return Err("no layers".to_string());
        }
        let turn = if direction.id == 0 { "" } else { "'" };
        Ok(format!("{}{}", self.face_symbol(face), turn))
    }

    fn recenter_notation(&self, face: Face) -> Result<String, String> {
        if face.id == 4 {
            return Err("already in front".to_string());
        }
        Ok(format!("@{}", self.face_symbol(face)))
    }
}

fn face(id: u8) -> Face {
    Face { ty: CUBE, id }
}

#[test]
fn texts_of_commands() {
    let cube = Cube;
    assert_eq!(Command::Open.short_description(&cube), "Open");
    assert_eq!(Command::Save.short_description(&cube), "Save");
    assert_eq!(Command::SaveAs.short_description(&cube), "Save As");
    assert_eq!(Command::Exit.short_description(&cube), "Exit");
    assert_eq!(Command::Undo.short_description(&cube), "Undo");
    assert_eq!(Command::Redo.short_description(&cube), "Redo");
    assert_eq!(Command::Reset.short_description(&cube), "Reset");
    assert_eq!(Command::ScrambleN(0).short_description(&cube), "Scramble 0");
    assert_eq!(Command::ScrambleN(25).short_description(&cube), "Scramble 25");
    assert_eq!(Command::ScrambleFull.short_description(&cube), "Scramble fully");
    assert_eq!(Command::NewPuzzle(PuzzleType(4)).short_description(&cube), "New 4x4x4");
    assert_eq!(Command::ToggleBlindfold.short_description(&cube), "BLD");
    assert_eq!(Command::Nothing.short_description(&cube), "");
    assert_eq!(Command::new_puzzle_description("Skewb"), "New Skewb");
    assert_eq!(Command::default(), Command::Nothing);
    assert_eq!(PARTIAL_SCRAMBLE_MOVE_COUNT_MIN, 1);
    assert_eq!(PARTIAL_SCRAMBLE_MOVE_COUNT_MAX, 20);
}

#[test]
fn a_command_names_its_puzzle() {
    let cube = Cube;
    assert_eq!(Command::NewPuzzle(PuzzleType(5)).get_puzzle_type(&cube), PuzzleType(5));
    assert_eq!(Command::Open.get_puzzle_type(&cube), CUBE);
    assert_eq!(Command::Nothing.get_puzzle_type(&cube), CUBE);
}

#[test]
fn categories_and_ways_of_selecting() {
    assert_eq!(SelectCategory::default(), SelectCategory::Face);
    assert_eq!(SelectCategory::Face.name(), "Face");
    assert_eq!(SelectCategory::Layers.name(), "Layers");
    assert_eq!(SelectCategory::PieceType.name(), "Piece type");
    assert_eq!(SelectCategory::Face.lowercase_name(), "face");
    assert_eq!(SelectCategory::Layers.lowercase_name(), "layers");
    assert_eq!(SelectCategory::PieceType.lowercase_name(), "piece type");
    assert_eq!(SelectHow::Hold.name(), "Hold");
    assert_eq!(SelectHow::Toggle.name(), "Toggle");
    assert_eq!(SelectHow::Clear.name(), "Clear");
    assert_eq!(SelectThing::Face(face(2)).category(), SelectCategory::Face);
    assert_eq!(SelectThing::Layers(LayerMask(5)).category(), SelectCategory::Layers);
    assert_eq!(
        SelectThing::PieceType(PieceType { ty: CUBE, id: 1 }).category(),
        SelectCategory::PieceType
    );
}

#[test]
fn a_thing_selects_one_bit_of_its_mask() {
    assert_eq!(
        SelectThing::Face(face(0)).selection(),
        Selection { face_mask: 1, layer_mask: 0, piece_type_mask: 0 }
    );
    assert_eq!(
        SelectThing::Face(face(5)).selection(),
        Selection { face_mask: 32, layer_mask: 0, piece_type_mask: 0 }
    );
    assert_eq!(
        SelectThing::Face(face(31)).selection(),
        Selection { face_mask: 1 << 31, layer_mask: 0, piece_type_mask: 0 }
    );
    assert_eq!(
        SelectThing::Layers(LayerMask(6)).selection(),
        Selection { face_mask: 0, layer_mask: 6, piece_type_mask: 0 }
    );
    assert_eq!(
        SelectThing::PieceType(PieceType { ty: CUBE, id: 2 }).selection(),
        Selection { face_mask: 0, layer_mask: 0, piece_type_mask: 4 }
    );
}

#[test]
fn defaults_of_each_category() {
    let cube = Cube;
    assert_eq!(SelectThing::default(&cube, SelectCategory::Face, CUBE), SelectThing::Face(face(0)));
    assert_eq!(
        SelectThing::default(&cube, SelectCategory::Layers, CUBE),
        SelectThing::Layers(LayerMask(1))
    );
    assert_eq!(
        SelectThing::default(&cube, SelectCategory::PieceType, CUBE),
        SelectThing::PieceType(PieceType { ty: CUBE, id: 0 })
    );
}

#[test]
fn texts_of_things() {
    let cube = Cube;
    assert_eq!(SelectThing::Face(face(2)).short_description(&cube), "U");
    assert_eq!(SelectThing::Layers(LayerMask(5)).short_description(&cube), "L{101}");
    assert_eq!(
        SelectThing::PieceType(PieceType { ty: CUBE, id: 1 }).short_description(&cube),
        "edge"
    );
    assert_eq!(SelectThing::layers_description("12"), "L12");
    assert_eq!(SelectThing::layers_description(""), "L");
}

#[test]
fn layers_are_clamped_to_the_puzzle() {
    assert_eq!(LayerMask::all(0), LayerMask(0));
    assert_eq!(LayerMask::all(1), LayerMask(1));
    assert_eq!(LayerMask::all(3), LayerMask(7));
    assert_eq!(LayerMask::all(31), LayerMask(0x7fff_ffff));
    assert_eq!(LayerMask(0b1101).restricted_to(3), LayerMask(0b101));
    assert_eq!(LayerMask(0b1101).restricted_to(0), LayerMask(0));
    assert_eq!(clamp_layers(LayerMask(0b1101), 3), LayerMask(0b101));
    assert_eq!(clamp_layers(LayerMask(u32::MAX), 31), LayerMask(0x7fff_ffff));
    assert_eq!(clamp_layers(LayerMask(u32::MAX), 32), LayerMask(u32::MAX));
    assert_eq!(clamp_layers(LayerMask(0b1101), 200), LayerMask(0b1101));
}

#[test]
fn what_a_puzzle_command_selects() {
    let cube = Cube;
    let thing = SelectThing::Layers(LayerMask(2));
    let hold = PuzzleCommand::HoldSelect(thing);
    let toggle = PuzzleCommand::ToggleSelect(SelectThing::Face(face(3)));
    let clear = PuzzleCommand::ClearToggleSelect(SelectCategory::PieceType);
    let twist = PuzzleCommand::Twist {
        face: None,
        direction: TwistDirection { ty: CUBE, id: 0 },
        layer_mask: LayerMask(1),
    };
    assert_eq!(hold.get_select_category(), SelectCategory::Layers);
    assert_eq!(toggle.get_select_category(), SelectCategory::Face);
    assert_eq!(clear.get_select_category(), SelectCategory::PieceType);
    assert_eq!(twist.get_select_category(), SelectCategory::Face);
    assert_eq!(PuzzleCommand::Nothing.get_select_category(), SelectCategory::Face);

    assert_eq!(hold.get_select_how(), Some(SelectHow::Hold));
    assert_eq!(toggle.get_select_how(), Some(SelectHow::Toggle));
    assert_eq!(clear.get_select_how(), Some(SelectHow::Clear));
    assert_eq!(twist.get_select_how(), None);
    assert_eq!(PuzzleCommand::Recenter { face: None }.get_select_how(), None);
    assert_eq!(PuzzleCommand::Nothing.get_select_how(), None);

    assert_eq!(hold.get_select_thing(&cube, CUBE), thing);
    assert_eq!(toggle.get_select_thing(&cube, CUBE), SelectThing::Face(face(3)));
    assert_eq!(
        clear.get_select_thing(&cube, CUBE),
        SelectThing::PieceType(PieceType { ty: CUBE, id: 0 })
    );
    assert_eq!(twist.get_select_thing(&cube, CUBE), SelectThing::Face(face(0)));
    assert_eq!(PuzzleCommand::default(), PuzzleCommand::Nothing);
}

#[test]
fn texts_of_puzzle_commands() {
    let cube = Cube;
    let clockwise = TwistDirection { ty: CUBE, id: 0 };
    let counter = TwistDirection { ty: CUBE, id: 1 };
    let twist = |face, direction, layers| PuzzleCommand::Twist { face, direction, layer_mask: LayerMask(layers) };
    assert_eq!(twist(Some(face(0)), clockwise, 1).short_description(&cube), "R");
    assert_eq!(twist(Some(face(2)), counter, 1).short_description(&cube), "U'");
    assert_eq!(twist(Some(face(2)), counter, 0).short_description(&cube), "<invalid twist: no layers>");
    assert_eq!(twist(None, clockwise, 1).short_description(&cube), "ØCW");
    assert_eq!(twist(None, counter, 6).short_description(&cube), "{110}ØCCW");
    assert_eq!(PuzzleCommand::Recenter { face: Some(face(1)) }.short_description(&cube), "@L");
    assert_eq!(
        PuzzleCommand::Recenter { face: Some(face(4)) }.short_description(&cube),
        "<invalid twist: already in front>"
    );
    assert_eq!(PuzzleCommand::Recenter { face: None }.short_description(&cube), "Recenter");
    assert_eq!(PuzzleCommand::HoldSelect(SelectThing::Face(face(5))).short_description(&cube), "B");
    assert_eq!(
        PuzzleCommand::ToggleSelect(SelectThing::Layers(LayerMask(3))).short_description(&cube),
        "L{11}"
    );
    assert_eq!(
        PuzzleCommand::ClearToggleSelect(SelectCategory::Face).short_description(&cube),
        "Clear faces"
    );
    assert_eq!(
        PuzzleCommand::ClearToggleSelect(SelectCategory::Layers).short_description(&cube),
        "Clear layerss"
    );
    assert_eq!(
        PuzzleCommand::ClearToggleSelect(SelectCategory::PieceType).short_description(&cube),
        "Clear piece types"
    );
    assert_eq!(PuzzleCommand::Nothing.short_description(&cube), "");

    assert_eq!(describe_notation(Ok("R2".to_string())), "R2");
    assert_eq!(describe_notation(Err("bad".to_string())), "<invalid twist: bad>");
    assert_eq!(describe_free_twist("12", "CW"), "12ØCW");
    assert_eq!(describe_free_twist("", "x"), "Øx");
    assert_eq!(describe_clear(SelectCategory::PieceType), "Clear piece types");
}

#[test]
fn commands_are_stored_by_name_and_found_again() {
    let cube = Cube;
    let counter = TwistDirection { ty: CUBE, id: 1 };
    let twist = PuzzleCommand::Twist { face: Some(face(3)), direction: counter, layer_mask: LayerMask(5) };
    let stored = twist.to_stored(&cube);
    assert_eq!(
        stored,
        PuzzleCommandSerde::Twist {
            face: Some("Down".to_string()),
            direction: "CCW".to_string(),
            layer_mask: 5
        }
    );
    assert_eq!(PuzzleCommand::deserialize_from(&cube, stored, CUBE), twist);

    // Layers that the puzzle does not have are left out.
    let wide = PuzzleCommandSerde::Twist { face: None, direction: "CW".to_string(), layer_mask: 0b11110 };
    assert_eq!(
        PuzzleCommand::deserialize_from(&cube, wide, CUBE),
        PuzzleCommand::Twist {
            face: None,
            direction: TwistDirection { ty: CUBE, id: 0 },
            layer_mask: LayerMask(0b110)
        }
    );

    let commands = [
        PuzzleCommand::Recenter { face: Some(face(1)) },
        PuzzleCommand::Recenter { face: None },
        PuzzleCommand::HoldSelect(SelectThing::Face(face(4))),
        PuzzleCommand::HoldSelect(SelectThing::Layers(LayerMask(3))),
        PuzzleCommand::ToggleSelect(SelectThing::PieceType(PieceType { ty: CUBE, id: 2 })),
        PuzzleCommand::ClearToggleSelect(SelectCategory::Layers),
        PuzzleCommand::Nothing,
    ];
    for command in commands {
        let stored = command.to_stored(&cube);
        assert_eq!(PuzzleCommand::deserialize_from(&cube, stored, CUBE), command);
    }
    assert_eq!(
        PuzzleCommand::ClearToggleSelect(SelectCategory::Layers).to_stored(&cube),
        PuzzleCommandSerde::ClearToggleSelect(SelectCategory::Layers)
    );
    assert_eq!(PuzzleCommand::Nothing.to_stored(&cube), PuzzleCommandSerde::Nothing);
    assert_eq!(PuzzleCommandSerde::default(), PuzzleCommandSerde::Nothing);

    assert_eq!(
        SelectThing::Face(face(2)).to_stored(&cube),
        SelectThingSerde::Face("Up".to_string())
    );
    assert_eq!(SelectThing::Layers(LayerMask(9)).to_stored(&cube), SelectThingSerde::Layers(9));
    assert_eq!(
        SelectThing::PieceType(PieceType { ty: CUBE, id: 1 }).to_stored(&cube),
        SelectThingSerde::PieceType("edge".to_string())
    );
    assert_eq!(
        SelectThing::deserialize_from(&cube, SelectThingSerde::Layers(0b1111), CUBE),
        SelectThing::Layers(LayerMask(0b111))
    );
    assert_eq!(
        SelectThing::deserialize_from(&cube, SelectThingSerde::Face("Back".to_string()), CUBE),
        SelectThing::Face(face(5))
    );
}

#[test]
fn render_engines_have_names() {
    assert_eq!(RenderEngine::default(), RenderEngine::MultiPass);
    assert_eq!(RenderEngine::SinglePass.describe(), "Fast");
    assert_eq!(RenderEngine::MultiPass.describe(), "Fancy");
    assert_eq!(HintWidget, HintWidget);
}

#[test]
fn colours_view_is_built_step_by_step() {
    let ui = ColorsUi::new();
    assert!(!ui.clickable);
    assert!(!ui.show_puzzle_colors);
    assert!(!ui.is_dragging());
    assert_eq!(ui.hovered_color, None);
    assert_eq!(ui.clicked_color, None);

    let ui = ui.clickable(true);
    assert!(ui.clickable);
    assert!(!ui.show_puzzle_colors);
    let ui = ui.show_puzzle_colors(true);
    assert!(ui.clickable);
    assert!(ui.show_puzzle_colors);
    let ui = ui.clickable(false).show_puzzle_colors(false);
    assert!(!ui.clickable);
    assert!(!ui.show_puzzle_colors);

    let mut ui = ui.drag_puzzle_colors(true);
    assert!(ui.show_puzzle_colors);
    assert_eq!(ui.dragging, Some(false));
    assert!(!ui.is_dragging());
    ui.set_dragging(true);
    assert!(ui.is_dragging());
    let mut ui = ui.drag_puzzle_colors(false);
    assert!(ui.show_puzzle_colors);
    assert!(!ui.is_dragging());
    ui.set_dragging(true);
    assert!(!ui.is_dragging());
    assert_eq!(ui.dragging, None);
}

#[test]
fn colours_are_hovered_and_clicked() {
    let red = DefaultColor::Single { name: "Red".to_string() };
    let third = DefaultColor::ColorSet { set_name: "Dark".to_string(), index: 2 };
    let mid = DefaultColor::Gradient { gradient_name: "Rainbow".to_string(), index: 3, total: 7 };
    assert_eq!(mid.clone(), mid);
    assert_eq!(third.clone(), third);
    assert_ne!(red, third);

    let mut ui = ColorsUi::new();
    ui.click_zone(PointerOver { hovered: true, clicked: true }, &red);
    assert_eq!(ui.hovered_color, None);
    assert_eq!(ui.clicked_color, None);

    let mut ui = ui.clickable(true);
    ui.click_zone(PointerOver { hovered: true, clicked: false }, &red);
    assert_eq!(ui.hovered_color, Some(red.clone()));
    assert_eq!(ui.clicked_color, None);
    ui.click_zone(PointerOver { hovered: false, clicked: true }, &third);
    assert_eq!(ui.hovered_color, Some(red.clone()));
    assert_eq!(ui.clicked_color, Some(third.clone()));
    ui.click_zone(PointerOver { hovered: false, clicked: false }, &mid);
    assert_eq!(ui.hovered_color, Some(red.clone()));
    ui.click_zone(PointerOver { hovered: true, clicked: true }, &mid);
    assert_eq!(ui.hovered_color, Some(mid.clone()));
    assert_eq!(ui.clicked_color, Some(mid.clone()));

    assert_eq!(ui.take_hovered_color(), Some(mid.clone()));
    assert_eq!(ui.take_hovered_color(), None);
    assert_eq!(ui.clicked_color, Some(mid.clone()));
    assert_eq!(ui.take_clicked_color(), Some(mid));
    assert_eq!(ui.take_clicked_color(), None);
}
