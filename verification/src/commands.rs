//! Commands to select and manipulate parts of the puzzle.

use vstd::prelude::*;
use vstd::string::*;
use crate::puzzle::{Face, LayerMask, PieceType, PuzzleInfo, PuzzleType, Selection, TwistDirection};
use crate::text::{decimal, spec_decimal};

verus! {

/// Minimum number of moves for a partial scramble.
pub const PARTIAL_SCRAMBLE_MOVE_COUNT_MIN: usize = 1;

/// Maximum number of moves for a partial scramble.
pub const PARTIAL_SCRAMBLE_MOVE_COUNT_MAX: usize = 20;

/// Command of the application.
#[derive(Debug, Clone, Copy, PartialEq, Eq, Structural)]
pub enum Command {
    /// Open a file.
    Open,
    /// Save to the current file.
    Save,
    /// Save to another file.
    SaveAs,
    /// Leave the application.
    Exit,
    /// Undo a twist.
    Undo,
    /// Redo a twist.
    Redo,
    /// Reset the puzzle.
    Reset,
    /// Scramble with a number of moves.
    ScrambleN(usize),
    /// Scramble fully.
    ScrambleFull,
    /// Start a new puzzle.
    NewPuzzle(PuzzleType),
    /// Toggle the blindfold.
    ToggleBlindfold,
    /// Do nothing.
    Nothing,
}

impl Default for Command {
    fn default() -> (r: Command)
        ensures
            r == Command::Nothing,
    {
        Command::Nothing
    }
}

impl Command {
    /// The text of a command that names no puzzle.
    pub open spec fn spec_fixed_description(self) -> Seq<char> {
        match self {
            Command::Open => "Open"@,
            Command::Save => "Save"@,
            Command::SaveAs => "Save As"@,
            Command::Exit => "Exit"@,
            Command::Undo => "Undo"@,
            Command::Redo => "Redo"@,
            Command::Reset => "Reset"@,
            Command::ScrambleN(n) => "Scramble "@ + spec_decimal(n as nat),
            Command::ScrambleFull => "Scramble fully"@,
            Command::ToggleBlindfold => "BLD"@,
            _ => Seq::<char>::empty(),
        }
    }

    /// The text of the command to start a puzzle of the given name.
    pub open spec fn spec_new_puzzle_description(name: Seq<char>) -> Seq<char> {
        "New "@ + name
    }

    /// Returns the puzzle that the command names, or the default puzzle if
    /// it names none.
    pub fn get_puzzle_type<P: PuzzleInfo>(&self, info: &P) -> (ty: PuzzleType)
        ensures
            self matches Command::NewPuzzle(named) ==> ty == named,
    {
        match self {
            Command::NewPuzzle(puzzle_type) => *puzzle_type,
            _ => info.default_puzzle_type(),
        }
    }

    /// Returns the text of the command to start a puzzle of the given name.
    pub fn new_puzzle_description(name: &str) -> (s: String)
        ensures
            s@ == Self::spec_new_puzzle_description(name@),
    {
        let mut s = "New ".to_owned();
        s.append(name);
        s
    }

    /// Returns a short text for the command. The name of a new puzzle is
    /// asked of `info`.
    pub fn short_description<P: PuzzleInfo>(&self, info: &P) -> (s: String)
        ensures
            !(self is NewPuzzle) ==> s@ == self.spec_fixed_description(),
            self is NewPuzzle ==> exists|name: Seq<char>|
                s@ == #[trigger] Self::spec_new_puzzle_description(name),
    {
        match self {
            Command::Open => "Open".to_owned(),
            Command::Save => "Save".to_owned(),
            Command::SaveAs => "Save As".to_owned(),
            Command::Exit => "Exit".to_owned(),
            Command::Undo => "Undo".to_owned(),
            Command::Redo => "Redo".to_owned(),
            Command::Reset => "Reset".to_owned(),
            Command::ScrambleN(n) => {
                let mut s = "Scramble ".to_owned();
                s.append(decimal(*n as u64).as_str());
                s
            },
            Command::ScrambleFull => "Scramble fully".to_owned(),
            Command::NewPuzzle(ty) => Command::new_puzzle_description(
                info.puzzle_name(*ty).as_str(),
            ),
            Command::ToggleBlindfold => "BLD".to_owned(),
            Command::Nothing => String::new(),
        }
    }
}

/// Way of picking pieces.
#[derive(Debug, Clone, Copy, PartialEq, Eq, Structural)]
pub enum SelectCategory {
    /// By face.
    Face,
    /// By layer.
    Layers,
    /// By piece type.
    PieceType,
}

impl Default for SelectCategory {
    fn default() -> (r: SelectCategory)
        ensures
            r == SelectCategory::Face,
    {
        SelectCategory::Face
    }
}

impl SelectCategory {
    /// The name of the category.
    pub open spec fn spec_name(self) -> Seq<char> {
        match self {
            SelectCategory::Face => "Face"@,
            SelectCategory::Layers => "Layers"@,
            SelectCategory::PieceType => "Piece type"@,
        }
    }

    /// The name of the category in lower case.
    pub open spec fn spec_lowercase_name(self) -> Seq<char> {
        match self {
            SelectCategory::Face => "face"@,
            SelectCategory::Layers => "layers"@,
            SelectCategory::PieceType => "piece type"@,
        }
    }

    /// Returns the name of the category.
    pub fn name(self) -> (s: String)
        ensures
            s@ == self.spec_name(),
    {
        match self {
            SelectCategory::Face => "Face".to_owned(),
            SelectCategory::Layers => "Layers".to_owned(),
            SelectCategory::PieceType => "Piece type".to_owned(),
        }
    }

    /// Returns the name of the category in lower case.
    pub fn lowercase_name(self) -> (s: String)
        ensures
            s@ == self.spec_lowercase_name(),
    {
        match self {
            SelectCategory::Face => "face".to_owned(),
            SelectCategory::Layers => "layers".to_owned(),
            SelectCategory::PieceType => "piece type".to_owned(),
        }
    }
}

/// What a selection command does to the selection.
#[derive(Debug, Clone, Copy, PartialEq, Eq, Structural)]
pub enum SelectHow {
    /// Select while a key is held.
    Hold,
    /// Select until toggled again.
    Toggle,
    /// Clear what was toggled.
    Clear,
}

impl SelectHow {
    /// The name of the way.
    pub open spec fn spec_name(self) -> Seq<char> {
        match self {
            SelectHow::Hold => "Hold"@,
            SelectHow::Toggle => "Toggle"@,
            SelectHow::Clear => "Clear"@,
        }
    }

    /// Returns the name of the way.
    pub fn name(self) -> (s: String)
        ensures
            s@ == self.spec_name(),
    {
        match self {
            SelectHow::Hold => "Hold".to_owned(),
            SelectHow::Toggle => "Toggle".to_owned(),
            SelectHow::Clear => "Clear".to_owned(),
        }
    }
}

/// Thing by which pieces are picked.
#[derive(Debug, Clone, Copy, PartialEq, Eq, Structural)]
pub enum SelectThing {
    /// The pieces of a face.
    Face(Face),
    /// The pieces of some layers.
    Layers(LayerMask),
    /// The pieces of a type.
    PieceType(PieceType),
}

impl SelectThing {
    /// The category of the thing.
    pub open spec fn spec_category(self) -> SelectCategory {
        match self {
            SelectThing::Face(_) => SelectCategory::Face,
            SelectThing::Layers(_) => SelectCategory::Layers,
            SelectThing::PieceType(_) => SelectCategory::PieceType,
        }
    }

    /// The pieces that the thing picks: one bit in the mask of its category.
    pub open spec fn spec_selection(self) -> Selection {
        match self {
            SelectThing::Face(face) => Selection {
                face_mask: 1u32 << (face.id as u32),
                layer_mask: 0,
                piece_type_mask: 0,
            },
            SelectThing::Layers(layer_mask) => Selection {
                face_mask: 0,
                layer_mask: layer_mask.0,
                piece_type_mask: 0,
            },
            SelectThing::PieceType(piece_type) => Selection {
                face_mask: 0,
                layer_mask: 0,
                piece_type_mask: 1u32 << (piece_type.id as u32),
            },
        }
    }

    /// Whether the number of the face or piece type is that of a bit of a
    /// mask.
    pub open spec fn fits_mask(self) -> bool {
        match self {
            SelectThing::Face(face) => face.id < 32,
            SelectThing::Layers(_) => true,
            SelectThing::PieceType(piece_type) => piece_type.id < 32,
        }
    }

    /// The text of layers, from their short text.
    pub open spec fn spec_layers_description(layers: Seq<char>) -> Seq<char> {
        "L"@ + layers
    }

    /// Returns the category of the thing.
    pub fn category(self) -> (c: SelectCategory)
        ensures
            c == self.spec_category(),
    {
        match self {
            SelectThing::Face(_) => SelectCategory::Face,
            SelectThing::Layers(_) => SelectCategory::Layers,
            SelectThing::PieceType(_) => SelectCategory::PieceType,
        }
    }

    /// Returns the pieces that the thing picks.
    pub fn selection(self) -> (s: Selection)
        requires
            self.fits_mask(),
        ensures
            s == self.spec_selection(),
    {
        let mut ret = Selection { face_mask: 0, layer_mask: 0, piece_type_mask: 0 };
        match self {
            SelectThing::Face(face) => {
                ret.face_mask = 1u32 << (face.id as u32);
            },
            SelectThing::Layers(layer_mask) => {
                ret.layer_mask = layer_mask.0;
            },
            SelectThing::PieceType(piece_type) => {
                ret.piece_type_mask = 1u32 << (piece_type.id as u32);
            },
        }
        ret
    }

    /// Returns the thing that a category picks where none is named: the
    /// first face, the default layers, or the default piece type.
    pub fn default<P: PuzzleInfo>(info: &P, category: SelectCategory, ty: PuzzleType) -> (thing:
        SelectThing)
        ensures
            thing.spec_category() == category,
    {
        match category {
            SelectCategory::Face => SelectThing::Face(info.first_face(ty)),
            SelectCategory::Layers => SelectThing::Layers(info.default_layers()),
            SelectCategory::PieceType => SelectThing::PieceType(info.default_piece_type(ty)),
        }
    }

    /// Returns the text of layers, from their short text.
    pub fn layers_description(layers: &str) -> (s: String)
        ensures
            s@ == Self::spec_layers_description(layers@),
    {
        let mut s = "L".to_owned();
        s.append(layers);
        s
    }

    /// The short text for the thing, where `answer` is what the puzzle
    /// answers for it: the symbol of the face, the short text of the layers,
    /// or the name of the piece type.
    pub open spec fn spec_description_from(self, answer: Seq<char>) -> Seq<char> {
        match self {
            SelectThing::Face(_) => answer,
            SelectThing::Layers(_) => Self::spec_layers_description(answer),
            SelectThing::PieceType(_) => answer,
        }
    }

    /// Returns a short text for the thing: the symbol of the face, `L` and
    /// the short text of the layers, or the name of the piece type.
    pub fn short_description<P: PuzzleInfo>(self, info: &P) -> (s: String)
        ensures
            exists|answer: Seq<char>| s@ == #[trigger] self.spec_description_from(answer),
    {
        match self {
            SelectThing::Face(f) => {
                let symbol = info.face_symbol(f);
                assert(symbol@ == self.spec_description_from(symbol@));
                symbol
            },
            SelectThing::Layers(l) => {
                let layers = info.layers_description(l);
                let s = SelectThing::layers_description(layers.as_str());
                assert(s@ == self.spec_description_from(layers@));
                s
            },
            SelectThing::PieceType(p) => {
                let name = info.piece_type_name(p);
                assert(name@ == self.spec_description_from(name@));
                name
            },
        }
    }

    /// Returns the thing in the form that is stored.
    pub fn to_stored<P: PuzzleInfo>(self, info: &P) -> (stored: SelectThingSerde)
        ensures
            stored.spec_category() == self.spec_category(),
            self matches SelectThing::Layers(mask) ==> stored == SelectThingSerde::Layers(mask.0),
    {
        match self {
            SelectThing::Face(face) => SelectThingSerde::Face(info.face_name(face)),
            SelectThing::Layers(layer_mask) => SelectThingSerde::Layers(layer_mask.0),
            SelectThing::PieceType(piece_type) => SelectThingSerde::PieceType(
                info.piece_type_name(piece_type),
            ),
        }
    }

    /// Makes the thing that a stored form stands for in a puzzle. Layers
    /// that the puzzle does not have are left out.
    pub fn deserialize_from<P: PuzzleInfo>(info: &P, thing: SelectThingSerde, ty: PuzzleType) -> (r:
        SelectThing)
        ensures
            r.spec_category() == thing.spec_category(),
            exists|answers: Restored| r == #[trigger] Self::spec_restored(thing, answers),
    {
        let ghost mut answers = Restored {
            face: Face { ty, id: 0 },
            direction: TwistDirection { ty, id: 0 },
            layer_count: 0,
            piece_type: PieceType { ty, id: 0 },
        };
        let r = match thing {
            SelectThingSerde::Face(face) => {
                let found = info.face_from_name(ty, face.as_str());
                proof {
                    answers.face = found;
                }
                SelectThing::Face(found)
            },
            SelectThingSerde::Layers(layer_mask) => {
                let count = info.layer_count(ty);
                proof {
                    answers.layer_count = count;
                }
                SelectThing::Layers(clamp_layers(LayerMask(layer_mask), count))
            },
            SelectThingSerde::PieceType(piece_type) => {
                let found = info.piece_type_from_name(ty, piece_type.as_str());
                proof {
                    answers.piece_type = found;
                }
                SelectThing::PieceType(found)
            },
        };
        assert(r == Self::spec_restored(thing, answers));
        r
    }

    /// The thing that a stored form stands for, where `answers` holds what
    /// the puzzle answers for it: the face or the piece type of the stored
    /// name, or the stored layers without those that the puzzle does not
    /// have.
    pub open spec fn spec_restored(thing: SelectThingSerde, answers: Restored) -> SelectThing {
        match thing {
            SelectThingSerde::Face(_) => SelectThing::Face(answers.face),
            SelectThingSerde::Layers(layer_mask) => SelectThing::Layers(
                spec_clamp_layers(LayerMask(layer_mask), answers.layer_count),
            ),
            SelectThingSerde::PieceType(_) => SelectThing::PieceType(answers.piece_type),
        }
    }
}

/// The layers of `mask` that a puzzle with `layer_count` layers has. A count
/// of 32 or more leaves every layer.
pub open spec fn spec_clamp_layers(mask: LayerMask, layer_count: u8) -> LayerMask {
    if layer_count < 32 {
        LayerMask(mask.0 & crate::puzzle::spec_all_layers(layer_count))
    } else {
        mask
    }
}

/// Returns the layers of `mask` that a puzzle with `layer_count` layers has.
pub fn clamp_layers(mask: LayerMask, layer_count: u8) -> (r: LayerMask)
    ensures
        r == spec_clamp_layers(mask, layer_count),
{
    if layer_count < 32 {
        mask.restricted_to(layer_count)
    } else {
        mask
    }
}

/// Stored form of a [`SelectThing`]: faces and piece types by name.
#[derive(Debug, Clone, PartialEq, Eq)]
pub enum SelectThingSerde {
    /// A face, by name.
    Face(String),
    /// Some layers.
    Layers(u32),
    /// A piece type, by name.
    PieceType(String),
}

impl SelectThingSerde {
    /// The category of the thing.
    pub open spec fn spec_category(self) -> SelectCategory {
        match self {
            SelectThingSerde::Face(_) => SelectCategory::Face,
            SelectThingSerde::Layers(_) => SelectCategory::Layers,
            SelectThingSerde::PieceType(_) => SelectCategory::PieceType,
        }
    }
}

/// Command that acts on the puzzle.
#[derive(Debug, Clone, Copy, PartialEq, Eq, Structural)]
pub enum PuzzleCommand {
    /// Twist a face.
    Twist {
        /// Face to twist, if it is fixed.
        face: Option<Face>,
        /// Direction of the twist.
        direction: TwistDirection,
        /// Layers to twist.
        layer_mask: LayerMask,
    },
    /// Bring a face to the centre.
    Recenter {
        /// Face to bring to the centre, if it is fixed.
        face: Option<Face>,
    },
    /// Select a thing while the key is held.
    HoldSelect(SelectThing),
    /// Select a thing until it is toggled again.
    ToggleSelect(SelectThing),
    /// Clear what was toggled in a category.
    ClearToggleSelect(SelectCategory),
    /// Do nothing.
    Nothing,
}

impl Default for PuzzleCommand {
    fn default() -> (r: PuzzleCommand)
        ensures
            r == PuzzleCommand::Nothing,
    {
        PuzzleCommand::Nothing
    }
}

/// What a puzzle answers when a stored command is restored.
pub ghost struct Restored {
    /// The face of the stored name.
    pub face: Face,
    /// The direction of the stored name.
    pub direction: TwistDirection,
    /// How many layers the puzzle has.
    pub layer_count: u8,
    /// The piece type of the stored name.
    pub piece_type: PieceType,
}

/// What a puzzle answers when a command is described.
pub ghost struct Described {
    /// The notation of the twist or of the recentering, or why there is
    /// none.
    pub notation: Result<Seq<char>, Seq<char>>,
    /// Whether the layers of the command are the default layers of the
    /// puzzle.
    pub layers_are_default: bool,
    /// The short text of the layers.
    pub layers: Seq<char>,
    /// The name of the direction.
    pub direction: Seq<char>,
    /// The text of the thing that is selected.
    pub selected: Seq<char>,
}

/// The text for a twist that the puzzle could or could not write.
pub open spec fn spec_describe_notation(outcome: Result<String, String>) -> Seq<char> {
    spec_notation_text(spec_notation_view(outcome))
}

/// The characters of what the puzzle answered when asked for a notation.
pub open spec fn spec_notation_view(outcome: Result<String, String>) -> Result<
    Seq<char>,
    Seq<char>,
> {
    match outcome {
        Ok(twist) => Ok(twist@),
        Err(e) => Err(e@),
    }
}

/// The text for a notation: the notation itself, or a note that holds the
/// reason why there is none.
pub open spec fn spec_notation_text(outcome: Result<Seq<char>, Seq<char>>) -> Seq<char> {
    match outcome {
        Ok(twist) => twist,
        Err(e) => "<invalid twist: "@ + e + ">"@,
    }
}

/// Returns the text for a twist that the puzzle could or could not write.
pub fn describe_notation(outcome: Result<String, String>) -> (s: String)
    ensures
        s@ == spec_describe_notation(outcome),
{
    match outcome {
        Ok(twist) => twist,
        Err(e) => {
            let mut s = "<invalid twist: ".to_owned();
            s.append(e.as_str());
            s.append(">");
            s
        },
    }
}

/// The text for a twist of no fixed face: the layers, a sign for the missing
/// face, and the name of the direction.
pub open spec fn spec_describe_free_twist(layers: Seq<char>, direction: Seq<char>) -> Seq<char> {
    layers + "Ø"@ + direction
}

/// Returns the text for a twist of no fixed face.
pub fn describe_free_twist(layers: &str, direction: &str) -> (s: String)
    ensures
        s@ == spec_describe_free_twist(layers@, direction@),
{
    let mut s = layers.to_owned();
    s.append("Ø");
    s.append(direction);
    s
}

/// The text for clearing a category.
pub open spec fn spec_describe_clear(category: SelectCategory) -> Seq<char> {
    "Clear "@ + category.spec_lowercase_name() + "s"@
}

/// Returns the text for clearing a category.
pub fn describe_clear(category: SelectCategory) -> (s: String)
    ensures
        s@ == spec_describe_clear(category),
{
    let mut s = "Clear ".to_owned();
    s.append(category.lowercase_name().as_str());
    s.append("s");
    s
}

impl PuzzleCommand {
    /// The category that the command selects in.
    pub open spec fn spec_select_category(self) -> SelectCategory {
        match self {
            PuzzleCommand::HoldSelect(thing) | PuzzleCommand::ToggleSelect(thing) => {
                thing.spec_category()
            },
            PuzzleCommand::ClearToggleSelect(category) => category,
            _ => SelectCategory::Face,
        }
    }

    /// What the command does to the selection.
    pub open spec fn spec_select_how(self) -> Option<SelectHow> {
        match self {
            PuzzleCommand::HoldSelect(_) => Some(SelectHow::Hold),
            PuzzleCommand::ToggleSelect(_) => Some(SelectHow::Toggle),
            PuzzleCommand::ClearToggleSelect(_) => Some(SelectHow::Clear),
            _ => None,
        }
    }

    /// Returns the category that the command selects in, or the default
    /// category if it is no selection command.
    pub fn get_select_category(&self) -> (c: SelectCategory)
        ensures
            c == self.spec_select_category(),
    {
        match self {
            PuzzleCommand::HoldSelect(thing) | PuzzleCommand::ToggleSelect(thing) => {
                thing.category()
            },
            PuzzleCommand::ClearToggleSelect(category) => *category,
            _ => SelectCategory::default(),
        }
    }

    /// Returns the thing that the command selects, or the default of its
    /// category if it names none.
    pub fn get_select_thing<P: PuzzleInfo>(&self, info: &P, ty: PuzzleType) -> (thing: SelectThing)
        ensures
            thing.spec_category() == self.spec_select_category(),
            self matches PuzzleCommand::HoldSelect(named) ==> thing == named,
            self matches PuzzleCommand::ToggleSelect(named) ==> thing == named,
    {
        match self {
            PuzzleCommand::HoldSelect(thing) | PuzzleCommand::ToggleSelect(thing) => *thing,
            PuzzleCommand::ClearToggleSelect(category) => SelectThing::default(info, *category, ty),
            _ => SelectThing::Face(info.first_face(ty)),
        }
    }

    /// Returns what the command does to the selection, if anything.
    pub fn get_select_how(&self) -> (how: Option<SelectHow>)
        ensures
            how == self.spec_select_how(),
    {
        match self {
            PuzzleCommand::HoldSelect(_) => Some(SelectHow::Hold),
            PuzzleCommand::ToggleSelect(_) => Some(SelectHow::Toggle),
            PuzzleCommand::ClearToggleSelect(_) => Some(SelectHow::Clear),
            _ => None,
        }
    }

    /// The short text for the command, where `answers` holds what the puzzle
    /// answers for it.
    ///
    /// A twist or a recentering of a fixed face has the text of
    /// [`spec_notation_text`] for the notation that the puzzle gave. A
    /// twist of no fixed face has the text of [`spec_describe_free_twist`]
    /// for the name of its direction and the short text of its layers, or no
    /// text for the layers where they are the default ones. A selection has
    /// the short text of the thing that is selected.
    pub open spec fn spec_description_from(self, answers: Described) -> Seq<char> {
        match self {
            PuzzleCommand::Twist { face: Some(_), direction: _, layer_mask: _ } => {
                spec_notation_text(answers.notation)
            },
            PuzzleCommand::Twist { face: None, direction: _, layer_mask: _ } => {
                spec_describe_free_twist(
                    if answers.layers_are_default {
                        Seq::empty()
                    } else {
                        answers.layers
                    },
                    answers.direction,
                )
            },
            PuzzleCommand::Recenter { face: Some(_) } => spec_notation_text(answers.notation),
            PuzzleCommand::Recenter { face: None } => "Recenter"@,
            PuzzleCommand::HoldSelect(thing) => thing.spec_description_from(answers.selected),
            PuzzleCommand::ToggleSelect(thing) => thing.spec_description_from(answers.selected),
            PuzzleCommand::ClearToggleSelect(category) => spec_describe_clear(category),
            PuzzleCommand::Nothing => Seq::empty(),
        }
    }

    /// Returns a short text for the command.
    ///
    /// Clearing a category, recentering without a face, and doing nothing
    /// have fixed texts. The others are made of what `info` answers: by
    /// [`describe_notation`] for a twist or a recentering of a fixed face, by
    /// [`describe_free_twist`] for a twist of no fixed face, where default
    /// layers are left out, and by [`SelectThing::short_description`] for a
    /// selection.
    pub fn short_description<P: PuzzleInfo>(&self, info: &P) -> (s: String)
        ensures
            exists|answers: Described| s@ == #[trigger] self.spec_description_from(answers),
            self matches PuzzleCommand::ClearToggleSelect(category) ==> s@ == spec_describe_clear(
                *category,
            ),
            self matches PuzzleCommand::Recenter { face: None } ==> s@ == "Recenter"@,
            self is Nothing ==> s@ == Seq::<char>::empty(),
    {
        let ghost mut answers = Described {
            notation: Ok(Seq::empty()),
            layers_are_default: false,
            layers: Seq::empty(),
            direction: Seq::empty(),
            selected: Seq::empty(),
        };
        let s = match self {
            PuzzleCommand::Twist { face, direction, layer_mask } => {
                if let Some(f) = face {
                    let notation = info.twist_notation(*f, *direction, *layer_mask);
                    proof {
                        answers.notation = spec_notation_view(notation);
                    }
                    describe_notation(notation)
                } else {
                    let default_layers = info.default_layers();
                    let l = if layer_mask.0 == default_layers.0 {
                        proof {
                            answers.layers_are_default = true;
                        }
                        String::new()
                    } else {
                        info.layers_description(*layer_mask)
                    };
                    let d = info.direction_name(*direction);
                    proof {
                        answers.layers = l@;
                        answers.direction = d@;
                    }
                    describe_free_twist(l.as_str(), d.as_str())
                }
            },
            PuzzleCommand::Recenter { face } => match face {
                Some(f) => {
                    let notation = info.recenter_notation(*f);
                    proof {
                        answers.notation = spec_notation_view(notation);
                    }
                    describe_notation(notation)
                },
                None => "Recenter".to_owned(),
            },
            PuzzleCommand::HoldSelect(thing) => {
                let s = thing.short_description(info);
                proof {
                    answers.selected = choose|answer: Seq<char>|
                        s@ == #[trigger] thing.spec_description_from(answer);
                }
                s
            },
            PuzzleCommand::ToggleSelect(thing) => {
                let s = thing.short_description(info);
                proof {
                    answers.selected = choose|answer: Seq<char>|
                        s@ == #[trigger] thing.spec_description_from(answer);
                }
                s
            },
            PuzzleCommand::ClearToggleSelect(category) => describe_clear(*category),
            PuzzleCommand::Nothing => String::new(),
        };
        assert(s@ == self.spec_description_from(answers));
        s
    }

    /// Returns the command in the form that is stored.
    pub fn to_stored<P: PuzzleInfo>(&self, info: &P) -> (stored: PuzzleCommandSerde)
        ensures
            self is Twist == stored is Twist,
            self is Recenter == stored is Recenter,
            self is HoldSelect == stored is HoldSelect,
            self is ToggleSelect == stored is ToggleSelect,
            self is Nothing == stored is Nothing,
            self matches PuzzleCommand::ClearToggleSelect(category) ==> stored
                == PuzzleCommandSerde::ClearToggleSelect(*category),
            self matches PuzzleCommand::Twist { face, direction, layer_mask } ==> (stored matches PuzzleCommandSerde::Twist {
                face: stored_face,
                direction: _,
                layer_mask: stored_mask,
            } && stored_mask == layer_mask.0 && stored_face.is_some() == face.is_some()),
    {
        match self {
            PuzzleCommand::Twist { face, direction, layer_mask } => PuzzleCommandSerde::Twist {
                face: match face {
                    Some(f) => Some(info.face_name(*f)),
                    None => None,
                },
                direction: info.direction_name(*direction),
                layer_mask: layer_mask.0,
            },
            PuzzleCommand::Recenter { face } => PuzzleCommandSerde::Recenter {
                face: match face {
                    Some(f) => Some(info.face_name(*f)),
                    None => None,
                },
            },
            PuzzleCommand::HoldSelect(thing) => PuzzleCommandSerde::HoldSelect(
                thing.to_stored(info),
            ),
            PuzzleCommand::ToggleSelect(thing) => PuzzleCommandSerde::ToggleSelect(
                thing.to_stored(info),
            ),
            PuzzleCommand::ClearToggleSelect(category) => PuzzleCommandSerde::ClearToggleSelect(
                *category,
            ),
            PuzzleCommand::Nothing => PuzzleCommandSerde::Nothing,
        }
    }

    /// Checks that the command is valid, and modifies it to make it valid if
    /// it is not.
    pub fn deserialize_from<P: PuzzleInfo>(info: &P, command: PuzzleCommandSerde, ty: PuzzleType) -> (r:
        PuzzleCommand)
        ensures
            command is Twist == r is Twist,
            command is Recenter == r is Recenter,
            command is HoldSelect == r is HoldSelect,
            command is ToggleSelect == r is ToggleSelect,
            command is Nothing == r is Nothing,
            command matches PuzzleCommandSerde::ClearToggleSelect(category) ==> r
                == PuzzleCommand::ClearToggleSelect(category),
            exists|answers: Restored| r == #[trigger] Self::spec_restored(command, answers),
    {
        let ghost mut answers = Restored {
            face: Face { ty, id: 0 },
            direction: TwistDirection { ty, id: 0 },
            layer_count: 0,
            piece_type: PieceType { ty, id: 0 },
        };
        let r = match command {
            PuzzleCommandSerde::Twist { face, direction, layer_mask } => {
                let face = match face {
                    Some(f) => {
                        let found = info.face_from_name(ty, f.as_str());
                        proof {
                            answers.face = found;
                        }
                        Some(found)
                    },
                    None => None,
                };
                let direction = info.direction_from_name(ty, direction.as_str());
                let count = info.layer_count(ty);
                proof {
                    answers.direction = direction;
                    answers.layer_count = count;
                }
                PuzzleCommand::Twist {
                    face,
                    direction,
                    layer_mask: clamp_layers(LayerMask(layer_mask), count),
                }
            },
            PuzzleCommandSerde::Recenter { face } => PuzzleCommand::Recenter {
                face: match face {
                    Some(f) => {
                        let found = info.face_from_name(ty, f.as_str());
                        proof {
                            answers.face = found;
                        }
                        Some(found)
                    },
                    None => None,
                },
            },
            PuzzleCommandSerde::HoldSelect(thing) => {
                let restored = SelectThing::deserialize_from(info, thing, ty);
                proof {
                    answers = choose|answers: Restored|
                        restored == #[trigger] SelectThing::spec_restored(thing, answers);
                }
                PuzzleCommand::HoldSelect(restored)
            },
            PuzzleCommandSerde::ToggleSelect(thing) => {
                let restored = SelectThing::deserialize_from(info, thing, ty);
                proof {
                    answers = choose|answers: Restored|
                        restored == #[trigger] SelectThing::spec_restored(thing, answers);
                }
                PuzzleCommand::ToggleSelect(restored)
            },
            PuzzleCommandSerde::ClearToggleSelect(category) => PuzzleCommand::ClearToggleSelect(
                category,
            ),
            PuzzleCommandSerde::Nothing => PuzzleCommand::Nothing,
        };
        assert(r == Self::spec_restored(command, answers));
        r
    }

    /// The command that a stored form stands for, where `answers` holds what
    /// the puzzle answers for it: the faces, the direction and the piece
    /// type of the stored names, and how many layers the puzzle has. Layers
    /// that the puzzle does not have are left out.
    pub open spec fn spec_restored(command: PuzzleCommandSerde, answers: Restored) -> PuzzleCommand {
        match command {
            PuzzleCommandSerde::Twist { face, direction: _, layer_mask } => PuzzleCommand::Twist {
                face: match face {
                    Some(_) => Some(answers.face),
                    None => None,
                },
                direction: answers.direction,
                layer_mask: spec_clamp_layers(LayerMask(layer_mask), answers.layer_count),
            },
            PuzzleCommandSerde::Recenter { face } => PuzzleCommand::Recenter {
                face: match face {
                    Some(_) => Some(answers.face),
                    None => None,
                },
            },
            PuzzleCommandSerde::HoldSelect(thing) => PuzzleCommand::HoldSelect(
                SelectThing::spec_restored(thing, answers),
            ),
            PuzzleCommandSerde::ToggleSelect(thing) => PuzzleCommand::ToggleSelect(
                SelectThing::spec_restored(thing, answers),
            ),
            PuzzleCommandSerde::ClearToggleSelect(category) => PuzzleCommand::ClearToggleSelect(
                category,
            ),
            PuzzleCommandSerde::Nothing => PuzzleCommand::Nothing,
        }
    }
}

/// Stored form of a [`PuzzleCommand`]: faces, directions and piece types by
/// name.
#[derive(Debug, Clone, PartialEq, Eq)]
pub enum PuzzleCommandSerde {
    /// Twist a face.
    Twist {
        /// Name of the face to twist, if it is fixed.
        face: Option<String>,
        /// Name of the direction of the twist.
        direction: String,
        /// Layers to twist.
        layer_mask: u32,
    },
    /// Bring a face to the centre.
    Recenter {
        /// Name of the face to bring to the centre, if it is fixed.
        face: Option<String>,
    },
    /// Select a thing while the key is held.
    HoldSelect(SelectThingSerde),
    /// Select a thing until it is toggled again.
    ToggleSelect(SelectThingSerde),
    /// Clear what was toggled in a category.
    ClearToggleSelect(SelectCategory),
    /// Do nothing.
    Nothing,
}

impl Default for PuzzleCommandSerde {
    fn default() -> (r: PuzzleCommandSerde)
        ensures
            r is Nothing,
    {
        PuzzleCommandSerde::Nothing
    }
}

} // verus!
