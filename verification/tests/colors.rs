//! Colour schemes and what a drag does to them.

use hyperspeedcube::assoc::{AssocList, Key};
use hyperspeedcube::colors::{
    BeforeOrAfter, ColorScheme, ColorsUi, DefaultColor, DragAndDropResponse,
};

fn single(name: &str) -> DefaultColor {
    DefaultColor::Single { name: name.to_string() }
}

fn sample(index: usize, total: usize) -> DefaultColor {
    DefaultColor::Gradient { gradient_name: "Rainbow".to_string(), index, total }
}

fn scheme(entries: &[(&str, DefaultColor)]) -> ColorScheme {
    let mut map = ColorScheme::new();
    for (name, color) in entries {
        map.insert(name.to_string(), color.clone());
    }
    map
}

fn entries(map: &ColorScheme) -> Vec<(String, DefaultColor)> {
    map.entries.clone()
}

fn expect(list: &[(&str, DefaultColor)]) -> Vec<(String, DefaultColor)> {
    list.iter().map(|(name, color)| (name.to_string(), color.clone())).collect()
}

#[test]
fn a_map_keeps_the_order_of_its_keys() {
    let mut map: AssocList<String, usize> = AssocList::new();
    assert_eq!(map.len(), 0);
    assert_eq!(map.get(&"a".to_string()), None);
    assert_eq!(map.position(&"a".to_string()), None);
    assert_eq!(map.insert("a".to_string(), 1), None);
    assert_eq!(map.insert("b".to_string(), 2), None);
    assert_eq!(map.insert("c".to_string(), 3), None);
    assert_eq!(map.insert("b".to_string(), 20), Some(2));
    assert_eq!(map.len(), 3);
    assert_eq!(
        map.entries,
        vec![("a".to_string(), 1), ("b".to_string(), 20), ("c".to_string(), 3)]
    );
    assert_eq!(map.get(&"b".to_string()), Some(&20));
    assert_eq!(map.get(&"d".to_string()), None);
    assert_eq!(map.position(&"c".to_string()), Some(2));
}

#[test]
fn colours_are_keys() {
    assert!(single("Red").same(&single("Red")));
    assert!(!single("Red").same(&single("Blue")));
    assert!(!single("Rainbow").same(&sample(0, 1)));
    assert!(sample(1, 3).same(&sample(1, 3)));
    assert!(!sample(1, 3).same(&sample(2, 3)));
    assert!(!sample(1, 3).same(&sample(1, 4)));
    let set = DefaultColor::ColorSet { set_name: "Dark".to_string(), index: 1 };
    assert!(set.same(&set.copy()));
    assert!(!set.same(&DefaultColor::ColorSet { set_name: "Dark".to_string(), index: 2 }));
    assert!(!set.same(&DefaultColor::ColorSet { set_name: "Light".to_string(), index: 1 }));
    assert_eq!(sample(2, 5).copy(), sample(2, 5));
    assert!("x".to_string().same(&"x".to_string()));
    assert!(!"x".to_string().same(&"y".to_string()));
    assert_eq!("x".to_string().copy(), "x");
}

#[test]
fn the_reverse_map_follows_the_scheme() {
    let map = scheme(&[
        ("A", sample(0, 3)),
        ("B", sample(1, 3)),
        ("C", single("Red")),
        ("D", DefaultColor::Gradient { gradient_name: "Unknown".to_string(), index: 0, total: 9 }),
        ("E", single("Red")),
    ]);
    let mut ui = ColorsUi::new().gradients(vec!["Rainbow".to_string()]);
    assert!(ui.knows_gradient(&"Rainbow".to_string()));
    assert!(!ui.knows_gradient(&"Unknown".to_string()));
    ui.update_reverse_color_map(&map);
    assert_eq!(ui.default_color_to_puzzle_color.get(&sample(0, 3)), Some(&"A".to_string()));
    assert_eq!(ui.default_color_to_puzzle_color.get(&sample(1, 3)), Some(&"B".to_string()));
    // The later of two puzzle colours with one palette colour is kept.
    assert_eq!(ui.default_color_to_puzzle_color.get(&single("Red")), Some(&"E".to_string()));
    assert_eq!(ui.default_color_to_puzzle_color.get(&single("Blue")), None);
    assert_eq!(ui.default_color_to_puzzle_color.len(), 4);
    assert_eq!(ui.gradient_totals.entries, vec![("Rainbow".to_string(), 3)]);

    ui.clear_reverse_color_map();
    assert_eq!(ui.default_color_to_puzzle_color.len(), 0);
    assert_eq!(ui.gradient_totals.len(), 0);
    assert!(ui.knows_gradient(&"Rainbow".to_string()));
}

#[test]
fn colours_are_swapped() {
    let mut map = scheme(&[("A", single("Red")), ("B", single("Blue"))]);
    let mut ui = ColorsUi::new();
    ui.update_reverse_color_map(&map);

    ui.swap_color_to(&mut map, "A".to_string(), single("Blue"));
    assert_eq!(entries(&map), expect(&[("A", single("Blue")), ("B", single("Red"))]));

    // The view still has the old assignment: a colour that nobody had is
    // simply taken.
    ui.swap_color_to(&mut map, "A".to_string(), single("Green"));
    assert_eq!(entries(&map), expect(&[("A", single("Green")), ("B", single("Red"))]));

    // A new puzzle colour had nothing to give back.
    ui.swap_color_to(&mut map, "C".to_string(), single("Red"));
    assert_eq!(
        entries(&map),
        expect(&[("A", single("Green")), ("B", single("Red")), ("C", single("Red"))])
    );
}

#[test]
fn a_colour_is_moved_into_a_gradient() {
    let start =
        [("A", sample(0, 3)), ("B", sample(1, 3)), ("C", sample(2, 3)), ("D", single("Red"))];
    let mut ui = ColorsUi::new().gradients(vec!["Rainbow".to_string()]);
    ui.update_reverse_color_map(&scheme(&start));

    let mut map = scheme(&start);
    ui.reorder_color_to(&mut map, "D".to_string(), sample(1, 3), BeforeOrAfter::Before);
    assert_eq!(
        entries(&map),
        expect(&[("A", sample(0, 3)), ("B", sample(2, 4)), ("C", sample(3, 4)), ("D", sample(1, 3))])
    );

    let mut map = scheme(&start);
    ui.reorder_color_to(&mut map, "D".to_string(), sample(1, 3), BeforeOrAfter::After);
    assert_eq!(
        entries(&map),
        expect(&[("A", sample(0, 3)), ("B", sample(1, 3)), ("C", sample(3, 4)), ("D", sample(1, 3))])
    );

    let mut map = scheme(&start);
    ui.reorder_color_to(&mut map, "E".to_string(), sample(2, 3), BeforeOrAfter::After);
    assert_eq!(
        entries(&map),
        expect(&[
            ("A", sample(0, 3)),
            ("B", sample(1, 3)),
            ("C", sample(2, 3)),
            ("D", single("Red")),
            ("E", sample(2, 3))
        ])
    );

    // Nothing is done for a drop outside a known gradient, or at the last
    // position that can be counted.
    let mut map = scheme(&start);
    ui.reorder_color_to(&mut map, "D".to_string(), single("Blue"), BeforeOrAfter::Before);
    assert_eq!(entries(&map), expect(&start));
    let other = DefaultColor::Gradient { gradient_name: "Unknown".to_string(), index: 0, total: 3 };
    ui.reorder_color_to(&mut map, "D".to_string(), other, BeforeOrAfter::Before);
    assert_eq!(entries(&map), expect(&start));
    ui.reorder_color_to(&mut map, "D".to_string(), sample(usize::MAX, 3), BeforeOrAfter::After);
    assert_eq!(entries(&map), expect(&start));
}

#[test]
fn a_drag_is_applied() {
    let start = [("A", sample(0, 2)), ("B", sample(1, 2)), ("C", single("Red"))];
    let mut ui = ColorsUi::new().gradients(vec!["Rainbow".to_string()]);
    ui.update_reverse_color_map(&scheme(&start));

    let mut map = scheme(&start);
    let drag = DragAndDropResponse { payload: "C".to_string(), end: sample(0, 2), before_or_after: None };
    ui.apply_drag(&mut map, drag);
    assert_eq!(
        entries(&map),
        expect(&[("A", single("Red")), ("B", sample(1, 2)), ("C", sample(0, 2))])
    );

    let mut map = scheme(&start);
    let drag = DragAndDropResponse {
        payload: "C".to_string(),
        end: sample(0, 2),
        before_or_after: Some(BeforeOrAfter::Before),
    };
    ui.apply_drag(&mut map, drag);
    assert_eq!(
        entries(&map),
        expect(&[("A", sample(1, 3)), ("B", sample(2, 3)), ("C", sample(0, 2))])
    );

    let mut map = scheme(&start);
    let drag = DragAndDropResponse {
        payload: "C".to_string(),
        end: single("Blue"),
        before_or_after: Some(BeforeOrAfter::After),
    };
    ui.apply_drag(&mut map, drag);
    assert_eq!(entries(&map), expect(&start));
}
