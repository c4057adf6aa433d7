//! State of the colour palette view: what is shown, and what the pointer
//! does to it.

use vstd::prelude::*;
use crate::assoc::{spec_get, spec_put, AssocList, Key};

verus! {

/// Colour that a puzzle takes from the global palette.
#[derive(Debug, PartialEq, Eq)]
pub enum DefaultColor {
    /// A single colour, by name.
    Single {
        /// Name of the colour.
        name: String,
    },
    /// A colour of a set.
    ColorSet {
        /// Name of the set.
        set_name: String,
        /// Position of the colour in the set.
        index: usize,
    },
    /// A colour sampled from a gradient.
    Gradient {
        /// Name of the gradient.
        gradient_name: String,
        /// Position of the sample.
        index: usize,
        /// Number of samples taken from the gradient.
        total: usize,
    },
}

impl Clone for DefaultColor {
    /// Returns the same colour.
    fn clone(&self) -> (r: DefaultColor)
        ensures
            r == *self,
    {
        match self {
            DefaultColor::Single { name } => DefaultColor::Single { name: name.clone() },
            DefaultColor::ColorSet { set_name, index } => DefaultColor::ColorSet {
                set_name: set_name.clone(),
                index: *index,
            },
            DefaultColor::Gradient { gradient_name, index, total } => DefaultColor::Gradient {
                gradient_name: gradient_name.clone(),
                index: *index,
                total: *total,
            },
        }
    }
}

/// What tells one colour of the palette from another.
pub enum ColorKey {
    /// A single colour, by name.
    Single {
        /// Name of the colour.
        name: Seq<char>,
    },
    /// A colour of a set.
    ColorSet {
        /// Name of the set.
        set_name: Seq<char>,
        /// Position of the colour in the set.
        index: usize,
    },
    /// A colour sampled from a gradient.
    Gradient {
        /// Name of the gradient.
        gradient_name: Seq<char>,
        /// Position of the sample.
        index: usize,
        /// Number of samples taken from the gradient.
        total: usize,
    },
}

impl Key for DefaultColor {
    type Id = ColorKey;

    open spec fn id(&self) -> ColorKey {
        match self {
            DefaultColor::Single { name } => ColorKey::Single { name: name@ },
            DefaultColor::ColorSet { set_name, index } => ColorKey::ColorSet {
                set_name: set_name@,
                index: *index,
            },
            DefaultColor::Gradient { gradient_name, index, total } => ColorKey::Gradient {
                gradient_name: gradient_name@,
                index: *index,
                total: *total,
            },
        }
    }

    fn same(&self, other: &DefaultColor) -> (r: bool) {
        match (self, other) {
            (DefaultColor::Single { name: a }, DefaultColor::Single { name: b }) => *a == *b,
            (
                DefaultColor::ColorSet { set_name: a, index: i },
                DefaultColor::ColorSet { set_name: b, index: j },
            ) => *a == *b && *i == *j,
            (
                DefaultColor::Gradient { gradient_name: a, index: i, total: m },
                DefaultColor::Gradient { gradient_name: b, index: j, total: n },
            ) => *a == *b && *i == *j && *m == *n,
            _ => false,
        }
    }

    fn copy(&self) -> (r: DefaultColor) {
        self.clone()
    }
}

/// Assignment of palette colours to the colours of a puzzle, by the names of
/// the puzzle colours.
pub type ColorScheme = AssocList<String, DefaultColor>;

/// Whether a colour is dropped before or after the one it is dropped on.
#[derive(Debug, Clone, Copy, PartialEq, Eq, Structural)]
pub enum BeforeOrAfter {
    /// Before it.
    Before,
    /// After it.
    After,
}

/// What the end of a drag asks for: a puzzle colour dropped on a colour of
/// the palette.
pub struct DragAndDropResponse {
    /// Name of the puzzle colour that was dragged.
    pub payload: String,
    /// Colour of the palette that it was dropped on.
    pub end: DefaultColor,
    /// For a drop into a gradient, on which side of the sample it fell.
    pub before_or_after: Option<BeforeOrAfter>,
}

/// Whether one of `gradients` has the given name.
pub open spec fn spec_knows_gradient(gradients: Seq<String>, name: Seq<char>) -> bool {
    exists|i: int| 0 <= i < gradients.len() && (#[trigger] gradients[i])@ == name
}

/// The map from palette colours to puzzle colours, after the first `upto`
/// entries of a colour scheme have been entered into `start`.
pub open spec fn spec_reverse_map(
    start: Seq<(ColorKey, String)>,
    scheme: Seq<(String, DefaultColor)>,
    upto: int,
) -> Seq<(ColorKey, String)>
    decreases upto,
{
    if upto <= 0 {
        start
    } else {
        spec_put(
            spec_reverse_map(start, scheme, upto - 1),
            scheme[upto - 1].1.id(),
            scheme[upto - 1].0,
        )
    }
}

/// The number of samples taken from each gradient, after the first `upto`
/// entries of a colour scheme have been looked at: the first sample of a
/// known gradient tells the number.
pub open spec fn spec_gradient_totals(
    start: Seq<(Seq<char>, usize)>,
    gradients: Seq<String>,
    scheme: Seq<(String, DefaultColor)>,
    upto: int,
) -> Seq<(Seq<char>, usize)>
    decreases upto,
{
    if upto <= 0 {
        start
    } else {
        let before = spec_gradient_totals(start, gradients, scheme, upto - 1);
        match scheme[upto - 1].1 {
            DefaultColor::Gradient { gradient_name, index, total } => if index == 0
                && spec_knows_gradient(gradients, gradient_name@) {
                spec_put(before, gradient_name@, total)
            } else {
                before
            },
            _ => before,
        }
    }
}

/// The colour scheme after the puzzle colour `name` has taken the palette
/// colour `color`, and the puzzle colour that had it, if any, has taken the
/// palette colour that `name` had, if any.
pub open spec fn spec_swap(
    reverse: Seq<(ColorKey, String)>,
    map: Seq<(Seq<char>, DefaultColor)>,
    name: Seq<char>,
    color: DefaultColor,
) -> Seq<(Seq<char>, DefaultColor)> {
    let taken = spec_put(map, name, color);
    match (spec_get(map, name), spec_get(reverse, color.id())) {
        (Some(old_color), Some(old_name)) => spec_put(taken, old_name@, old_color),
        _ => taken,
    }
}

/// The colour scheme after the samples `from..upto` of a gradient with
/// `total` samples have each moved up by one, in a gradient of one sample
/// more: the puzzle colour that had a sample takes the next one.
pub open spec fn spec_shift(
    reverse: Seq<(ColorKey, String)>,
    map: Seq<(Seq<char>, DefaultColor)>,
    gradient_name: String,
    total: usize,
    from: int,
    upto: int,
) -> Seq<(Seq<char>, DefaultColor)>
    decreases upto - from,
{
    if upto <= from {
        map
    } else {
        let before = spec_shift(reverse, map, gradient_name, total, from, upto - 1);
        match spec_get(
            reverse,
            ColorKey::Gradient {
                gradient_name: gradient_name@,
                index: (upto - 1) as usize,
                total,
            },
        ) {
            Some(name) => spec_put(
                before,
                name@,
                DefaultColor::Gradient {
                    gradient_name,
                    index: upto as usize,
                    total: (total + 1) as usize,
                },
            ),
            None => before,
        }
    }
}

/// What the pointer does over a colour.
#[derive(Debug, Clone, Copy, PartialEq, Eq, Structural)]
pub struct PointerOver {
    /// The pointer is over the colour.
    pub hovered: bool,
    /// The colour was clicked.
    pub clicked: bool,
}

/// View of the colours of the global palette.
pub struct ColorsUi {
    /// The puzzle colour that has each palette colour.
    pub default_color_to_puzzle_color: AssocList<DefaultColor, String>,
    /// Number of samples taken from each gradient.
    pub gradient_totals: AssocList<String, usize>,
    /// Names of the gradients of the palette.
    pub gradients: Vec<String>,
    /// Whether a click on a colour picks it.
    pub clickable: bool,
    /// Whether the puzzle colours assigned to the palette are shown.
    pub show_puzzle_colors: bool,
    /// Whether puzzle colours can be dragged and, if so, whether one is
    /// being dragged.
    pub dragging: Option<bool>,
    /// Colour under the pointer.
    pub hovered_color: Option<DefaultColor>,
    /// Colour that was clicked.
    pub clicked_color: Option<DefaultColor>,
}

impl ColorsUi {
    /// Whether puzzle colours can be dragged and, if so, whether one is being
    /// dragged.
    pub open spec fn spec_dragging(&self) -> Option<bool> {
        self.dragging
    }

    /// Colour under the pointer.
    pub open spec fn spec_hovered_color(&self) -> Option<DefaultColor> {
        self.hovered_color
    }

    /// Colour that was clicked.
    pub open spec fn spec_clicked_color(&self) -> Option<DefaultColor> {
        self.clicked_color
    }

    /// The two views know the same gradients and the same assignment of
    /// colours.
    pub open spec fn same_maps(&self, other: &ColorsUi) -> bool {
        &&& self.default_color_to_puzzle_color == other.default_color_to_puzzle_color
        &&& self.gradient_totals == other.gradient_totals
        &&& self.gradients == other.gradients
    }

    /// Creates a view in which nothing can be clicked or dragged, that shows
    /// no puzzle colours, and over which the pointer has done nothing.
    pub fn new() -> (ui: ColorsUi)
        ensures
            !ui.clickable,
            !ui.show_puzzle_colors,
            ui.spec_dragging().is_none(),
            ui.spec_hovered_color().is_none(),
            ui.spec_clicked_color().is_none(),
            ui.default_color_to_puzzle_color@.len() == 0,
            ui.gradient_totals@.len() == 0,
            ui.gradients@.len() == 0,
    {
        ColorsUi {
            default_color_to_puzzle_color: AssocList::new(),
            gradient_totals: AssocList::new(),
            gradients: Vec::new(),
            show_puzzle_colors: false,
            clickable: false,
            dragging: None,
            hovered_color: None,
            clicked_color: None,
        }
    }

    /// Sets whether a click on a colour picks it.
    pub fn clickable(self, clickable: bool) -> (ui: ColorsUi)
        ensures
            ui.clickable == clickable,
            ui.same_maps(&self),
            ui.show_puzzle_colors == self.show_puzzle_colors,
            ui.spec_dragging() == self.spec_dragging(),
            ui.spec_hovered_color() == self.spec_hovered_color(),
            ui.spec_clicked_color() == self.spec_clicked_color(),
    {
        let mut ui = self;
        ui.clickable = clickable;
        ui
    }

    /// Sets whether the puzzle colours assigned to the palette are shown.
    pub fn show_puzzle_colors(self, show_puzzle_colors: bool) -> (ui: ColorsUi)
        ensures
            ui.show_puzzle_colors == show_puzzle_colors,
            ui.same_maps(&self),
            ui.clickable == self.clickable,
            ui.spec_dragging() == self.spec_dragging(),
            ui.spec_hovered_color() == self.spec_hovered_color(),
            ui.spec_clicked_color() == self.spec_clicked_color(),
    {
        let mut ui = self;
        ui.show_puzzle_colors = show_puzzle_colors;
        ui
    }

    /// Sets whether puzzle colours can be dragged. Colours that can be
    /// dragged are shown; nothing is being dragged at first.
    pub fn drag_puzzle_colors(self, drag_puzzle_colors: bool) -> (ui: ColorsUi)
        ensures
            ui.spec_dragging() == if drag_puzzle_colors {
                Some(false)
            } else {
                None
            },
            ui.show_puzzle_colors == (drag_puzzle_colors || self.show_puzzle_colors),
            ui.same_maps(&self),
            ui.clickable == self.clickable,
            ui.spec_hovered_color() == self.spec_hovered_color(),
            ui.spec_clicked_color() == self.spec_clicked_color(),
    {
        let mut ui = self;
        if drag_puzzle_colors {
            ui.dragging = Some(false);
            ui.show_puzzle_colors(true)
        } else {
            ui.dragging = None;
            ui
        }
    }

    /// Records whether a puzzle colour is being dragged. Nothing changes
    /// where colours cannot be dragged.
    pub fn set_dragging(&mut self, dragging: bool)
        ensures
            final(self).spec_dragging() == if old(self).spec_dragging().is_some() {
                Some(dragging)
            } else {
                None
            },
            final(self).same_maps(old(self)),
            final(self).clickable == old(self).clickable,
            final(self).show_puzzle_colors == old(self).show_puzzle_colors,
            final(self).spec_hovered_color() == old(self).spec_hovered_color(),
            final(self).spec_clicked_color() == old(self).spec_clicked_color(),
    {
        if self.dragging.is_some() {
            self.dragging = Some(dragging);
        }
    }

    /// Returns whether a puzzle colour is being dragged.
    pub fn is_dragging(&self) -> (dragging: bool)
        ensures
            dragging == (self.spec_dragging() == Some(true)),
    {
        match self.dragging {
            Some(dragging) => dragging,
            None => false,
        }
    }

    /// Takes note of what the pointer does over a colour: where colours can
    /// be clicked, a colour under the pointer becomes the hovered colour and
    /// a colour that is clicked becomes the clicked colour.
    pub fn click_zone(&mut self, pointer: PointerOver, color: &DefaultColor)
        ensures
            final(self).spec_hovered_color() == if old(self).clickable && pointer.hovered {
                Some(*color)
            } else {
                old(self).spec_hovered_color()
            },
            final(self).spec_clicked_color() == if old(self).clickable && pointer.clicked {
                Some(*color)
            } else {
                old(self).spec_clicked_color()
            },
            final(self).same_maps(old(self)),
            final(self).clickable == old(self).clickable,
            final(self).show_puzzle_colors == old(self).show_puzzle_colors,
            final(self).spec_dragging() == old(self).spec_dragging(),
    {
        if self.clickable {
            if pointer.hovered {
                self.hovered_color = Some(color.clone());
            }
            if pointer.clicked {
                self.clicked_color = Some(color.clone());
            }
        }
    }

    /// Hands out the hovered colour, which is then forgotten.
    pub fn take_hovered_color(&mut self) -> (color: Option<DefaultColor>)
        ensures
            color == old(self).spec_hovered_color(),
            final(self).spec_hovered_color().is_none(),
            final(self).spec_clicked_color() == old(self).spec_clicked_color(),
            final(self).same_maps(old(self)),
            final(self).clickable == old(self).clickable,
            final(self).show_puzzle_colors == old(self).show_puzzle_colors,
            final(self).spec_dragging() == old(self).spec_dragging(),
    {
        self.hovered_color.take()
    }

    /// Hands out the clicked colour, which is then forgotten.
    pub fn take_clicked_color(&mut self) -> (color: Option<DefaultColor>)
        ensures
            color == old(self).spec_clicked_color(),
            final(self).spec_clicked_color().is_none(),
            final(self).spec_hovered_color() == old(self).spec_hovered_color(),
            final(self).same_maps(old(self)),
            final(self).clickable == old(self).clickable,
            final(self).show_puzzle_colors == old(self).show_puzzle_colors,
            final(self).spec_dragging() == old(self).spec_dragging(),
    {
        self.clicked_color.take()
    }

    /// Tells the view the names of the gradients of the palette.
    pub fn gradients(self, gradients: Vec<String>) -> (ui: ColorsUi)
        ensures
            ui.gradients == gradients,
            ui.default_color_to_puzzle_color == self.default_color_to_puzzle_color,
            ui.gradient_totals == self.gradient_totals,
            ui.clickable == self.clickable,
            ui.show_puzzle_colors == self.show_puzzle_colors,
            ui.spec_dragging() == self.spec_dragging(),
            ui.spec_hovered_color() == self.spec_hovered_color(),
            ui.spec_clicked_color() == self.spec_clicked_color(),
    {
        let mut ui = self;
        ui.gradients = gradients;
        ui
    }

    /// Returns whether the palette has a gradient of the given name.
    pub fn knows_gradient(&self, name: &String) -> (known: bool)
        ensures
            known == spec_knows_gradient(self.gradients@, name@),
    {
        let mut i: usize = 0;
        while i < self.gradients.len()
            invariant
                i <= self.gradients.len(),
                forall|j: int| 0 <= j < i ==> (#[trigger] self.gradients@[j])@ != name@,
            decreases self.gradients.len() - i,
        {
            if self.gradients[i] == *name {
                return true;
            }
            i += 1;
        }
        false
    }

    /// Forgets which puzzle colour has which palette colour.
    pub fn clear_reverse_color_map(&mut self)
        ensures
            final(self).default_color_to_puzzle_color@.len() == 0,
            final(self).gradient_totals@.len() == 0,
            final(self).gradients == old(self).gradients,
            final(self).clickable == old(self).clickable,
            final(self).show_puzzle_colors == old(self).show_puzzle_colors,
            final(self).spec_dragging() == old(self).spec_dragging(),
            final(self).spec_hovered_color() == old(self).spec_hovered_color(),
            final(self).spec_clicked_color() == old(self).spec_clicked_color(),
    {
        self.default_color_to_puzzle_color = AssocList::new();
        self.gradient_totals = AssocList::new();
    }

    /// Enters a colour scheme into the map from palette colours to puzzle
    /// colours, entry by entry, and takes the number of samples of each known
    /// gradient from its first sample. This assumes that the colour scheme is
    /// valid.
    pub fn update_reverse_color_map(&mut self, color_scheme: &ColorScheme)
        ensures
            final(self).default_color_to_puzzle_color@ == spec_reverse_map(
                old(self).default_color_to_puzzle_color@,
                color_scheme.entries@,
                color_scheme.entries@.len() as int,
            ),
            final(self).gradient_totals@ == spec_gradient_totals(
                old(self).gradient_totals@,
                old(self).gradients@,
                color_scheme.entries@,
                color_scheme.entries@.len() as int,
            ),
            final(self).gradients == old(self).gradients,
            final(self).clickable == old(self).clickable,
            final(self).show_puzzle_colors == old(self).show_puzzle_colors,
            final(self).spec_dragging() == old(self).spec_dragging(),
            final(self).spec_hovered_color() == old(self).spec_hovered_color(),
            final(self).spec_clicked_color() == old(self).spec_clicked_color(),
    {
        let mut i: usize = 0;
        while i < color_scheme.entries.len()
            invariant
                i <= color_scheme.entries.len(),
                self.default_color_to_puzzle_color@ == spec_reverse_map(
                    old(self).default_color_to_puzzle_color@,
                    color_scheme.entries@,
                    i as int,
                ),
                self.gradient_totals@ == spec_gradient_totals(
                    old(self).gradient_totals@,
                    old(self).gradients@,
                    color_scheme.entries@,
                    i as int,
                ),
                self.gradients == old(self).gradients,
                self.clickable == old(self).clickable,
                self.show_puzzle_colors == old(self).show_puzzle_colors,
                self.spec_dragging() == old(self).spec_dragging(),
                self.spec_hovered_color() == old(self).spec_hovered_color(),
                self.spec_clicked_color() == old(self).spec_clicked_color(),
            decreases color_scheme.entries.len() - i,
        {
            let color_name = &color_scheme.entries[i].0;
            let default_color = &color_scheme.entries[i].1;
            let _ = self.default_color_to_puzzle_color.insert(
                default_color.clone(),
                color_name.clone(),
            );

            // Record gradient totals.
            if let DefaultColor::Gradient { gradient_name, index, total } = default_color {
                if *index == 0 && self.knows_gradient(gradient_name) {
                    let _ = self.gradient_totals.insert(gradient_name.clone(), *total);
                }
            }
            i += 1;
        }
    }

    /// Gives the puzzle colour `name` the palette colour `new_default_color`.
    /// The puzzle colour that had it, if any, takes the palette colour that
    /// `name` had, if any.
    pub fn swap_color_to(&self, map: &mut ColorScheme, name: String, new_default_color: DefaultColor)
        ensures
            final(map)@ == spec_swap(
                self.default_color_to_puzzle_color@,
                old(map)@,
                name@,
                new_default_color,
            ),
    {
        let old_name = match self.default_color_to_puzzle_color.get(&new_default_color) {
            Some(old_name) => Some(old_name.clone()),
            None => None,
        };
        let old_default_color = map.insert(name, new_default_color);

        if let Some(old_default_color) = old_default_color {
            if let Some(old_name) = old_name {
                let _ = map.insert(old_name, old_default_color);
            }
        }
    }

    /// Whether [`ColorsUi::reorder_color_to`] has a place for a puzzle colour
    /// dropped on `new_default_color`: it is a sample of a known gradient,
    /// and neither the position after it nor the number of samples of the
    /// gradient, with one more, is beyond counting.
    pub open spec fn can_reorder_to(
        &self,
        new_default_color: DefaultColor,
        before_or_after: BeforeOrAfter,
    ) -> bool {
        match new_default_color {
            DefaultColor::Gradient { gradient_name, index, total } => {
                &&& spec_knows_gradient(self.gradients@, gradient_name@)
                &&& !(before_or_after == BeforeOrAfter::After && index == usize::MAX)
                &&& self.spec_total_of(gradient_name@) < usize::MAX
            },
            _ => false,
        }
    }

    /// The number of samples taken from a gradient: zero if it is not known.
    pub open spec fn spec_total_of(&self, gradient_name: Seq<char>) -> usize {
        match spec_get(self.gradient_totals@, gradient_name) {
            Some(total) => total,
            None => 0,
        }
    }

    /// The position that a puzzle colour takes when it is dropped before or
    /// after the sample at `index`.
    pub open spec fn spec_drop_index(index: usize, before_or_after: BeforeOrAfter) -> int {
        match before_or_after {
            BeforeOrAfter::Before => index as int,
            BeforeOrAfter::After => index + 1,
        }
    }

    /// Gives the puzzle colour `name` a sample of a gradient, before or after
    /// the sample `new_default_color`, and moves the puzzle colours that have
    /// the samples from there on up by one.
    ///
    /// Nothing is done if `new_default_color` is no sample of a known
    /// gradient, or where a position would be beyond counting.
    pub fn reorder_color_to(
        &self,
        map: &mut ColorScheme,
        name: String,
        new_default_color: DefaultColor,
        before_or_after: BeforeOrAfter,
    )
        ensures
            !self.can_reorder_to(new_default_color, before_or_after) ==> final(map)@ == old(map)@,
            self.can_reorder_to(new_default_color, before_or_after) ==> (
            new_default_color matches DefaultColor::Gradient { gradient_name, index, total } && final(map)@ == spec_put(
                spec_shift(
                    self.default_color_to_puzzle_color@,
                    old(map)@,
                    gradient_name,
                    self.spec_total_of(gradient_name@),
                    Self::spec_drop_index(index, before_or_after),
                    self.spec_total_of(gradient_name@) as int,
                ),
                name@,
                new_default_color,
            )),
    {
        let (gradient_name, first) = match &new_default_color {
            DefaultColor::Gradient { gradient_name, index, total: _ } => {
                let first = match before_or_after {
                    BeforeOrAfter::After => {
                        if *index == usize::MAX {
                            return ;
                        }
                        *index + 1
                    },
                    BeforeOrAfter::Before => *index,
                };
                (gradient_name.clone(), first)
            },
            _ => {
                // A colour can be moved within a gradient only.
                return ;
            },
        };
        if !self.knows_gradient(&gradient_name) {
            return ;
        }
        // Shift other colors up by one.
        let total = match self.gradient_totals.get(&gradient_name) {
            Some(total) => *total,
            None => 0,
        };
        if total == usize::MAX {
            return ;
        }
        let mut i: usize = first;
        while i < total
            invariant
                total < usize::MAX,
                first <= i,
                i <= total || first == i,
                map@ == spec_shift(
                    self.default_color_to_puzzle_color@,
                    old(map)@,
                    gradient_name,
                    total,
                    first as int,
                    i as int,
                ),
            decreases total - i,
        {
            let sample = DefaultColor::Gradient {
                gradient_name: gradient_name.clone(),
                index: i,
                total,
            };
            let holder = match self.default_color_to_puzzle_color.get(&sample) {
                Some(holder) => Some(holder.clone()),
                None => None,
            };
            if let Some(holder) = holder {
                let _ = map.insert(
                    holder,
                    DefaultColor::Gradient {
                        gradient_name: gradient_name.clone(),
                        index: i + 1,
                        total: total + 1,
                    },
                );
            }
            i += 1;
        }
        proof {
            if first > total {
                assert(map@ == old(map)@);
            }
        }

        // Insert the new color.
        let _ = map.insert(name, new_default_color);
    }

    /// Does to the colour scheme what the end of a drag asks for: a drop
    /// before or after a sample moves the colour into the gradient, and any
    /// other drop swaps colours.
    pub fn apply_drag(&self, map: &mut ColorScheme, drag: DragAndDropResponse)
        ensures
            drag.before_or_after is None ==> final(map)@ == spec_swap(
                self.default_color_to_puzzle_color@,
                old(map)@,
                drag.payload@,
                drag.end,
            ),
            drag.before_or_after matches Some(side) && !self.can_reorder_to(drag.end, side)
                ==> final(map)@ == old(map)@,
    {
        match drag.before_or_after {
            Some(before_or_after) => {
                self.reorder_color_to(map, drag.payload, drag.end, before_or_after)
            },
            None => self.swap_color_to(map, drag.payload, drag.end),
        }
    }
}

} // verus!
