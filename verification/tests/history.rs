use drawpad::canvas::{blank_data, Color, Data};
use drawpad::history::History;
use drawpad::operation::Operation;

const RED: Color = Color { r: 255, g: 0, b: 0 };
const GREEN: Color = Color { r: 0, g: 255, b: 0 };
const BLUE: Color = Color { r: 0, g: 0, b: 255 };
const WHITE: Color = Color { r: 255, g: 255, b: 255 };

fn dot(x: u8, y: u8, color: Color) -> Operation {
    Operation::Pencil { path: vec![(x, y)], color }
}

fn row(y: u8, color: Color) -> Operation {
    Operation::Pencil { path: vec![(0, y), (127, y)], color }
}

fn count_not_white(data: &Data) -> usize {
    let mut n = 0;
    for x in 0..128 {
        for y in 0..128 {
            if data[x][y] != WHITE {
                n += 1;
            }
        }
    }
    n
}

fn equal(a: &Data, b: &Data) -> bool {
    for x in 0..128 {
        for y in 0..128 {
            if a[x][y] != b[x][y] {
                return false;
            }
        }
    }
    true
}

#[test]
fn fresh_history_renders_nothing() {
    let mut h = History::new();
    let mut data = blank_data();
    data[3][3] = RED;
    h.render(&mut data);
    assert_eq!(data[3][3], RED);
    assert_eq!(count_not_white(&data), 1);
}

#[test]
fn render_paints_what_was_pushed() {
    let mut h = History::new();
    let mut data = blank_data();
    h.push(dot(1, 1, RED));
    h.push(dot(2, 2, GREEN));
    h.render(&mut data);
    assert_eq!(data[1][1], RED);
    assert_eq!(data[2][2], GREEN);
    assert_eq!(count_not_white(&data), 2);
}

#[test]
fn render_forwards_paints_only_what_is_new() {
    let mut h = History::new();
    let mut data = blank_data();
    h.push(dot(1, 1, RED));
    h.render(&mut data);
    // What is painted is not painted again: a mark made behind the back of
    // the history stays.
    data[1][1] = BLUE;
    h.push(dot(2, 2, GREEN));
    h.render(&mut data);
    assert_eq!(data[1][1], BLUE);
    assert_eq!(data[2][2], GREEN);
}

#[test]
fn render_backwards_starts_from_a_blank_grid() {
    let mut h = History::new();
    let mut data = blank_data();
    h.push(dot(1, 1, RED));
    h.push(dot(2, 2, GREEN));
    h.render(&mut data);
    data[9][9] = BLUE;
    h.undo();
    h.render(&mut data);
    assert_eq!(data[1][1], RED);
    assert_eq!(data[2][2], WHITE);
    assert_eq!(data[9][9], WHITE);
    assert_eq!(count_not_white(&data), 1);
}

#[test]
fn later_operations_paint_over_earlier_ones() {
    let mut h = History::new();
    let mut data = blank_data();
    h.push(row(5, RED));
    h.push(dot(7, 5, GREEN));
    h.render(&mut data);
    assert_eq!(data[6][5], RED);
    assert_eq!(data[7][5], GREEN);
    h.undo();
    h.render(&mut data);
    assert_eq!(data[7][5], RED);
}

#[test]
fn undo_all_gives_back_the_blank_grid() {
    for k in 0..6usize {
        let mut h = History::new();
        let mut data = blank_data();
        for i in 0..k {
            h.push(row(i as u8 * 3, RED));
        }
        h.render(&mut data);
        assert_eq!(count_not_white(&data), 128 * k);
        for _ in 0..k {
            h.undo();
        }
        h.render(&mut data);
        assert_eq!(count_not_white(&data), 0);
    }
}

#[test]
fn undo_below_zero_changes_nothing() {
    let mut h = History::new();
    let mut data = blank_data();
    h.push(dot(1, 1, RED));
    h.undo();
    h.undo();
    h.undo();
    h.redo();
    h.render(&mut data);
    assert_eq!(data[1][1], RED);
}

#[test]
fn redo_inverts_undo() {
    for j in 0..=4usize {
        let mut h = History::new();
        let mut data = blank_data();
        h.push(row(1, RED));
        h.push(row(2, GREEN));
        h.push(Operation::Eraser { path: vec![(10, 1), (40, 2)], size: 8 });
        h.push(dot(30, 2, BLUE));
        h.render(&mut data);
        let after_strokes = data;
        for _ in 0..j {
            h.undo();
        }
        for _ in 0..j {
            h.redo();
        }
        h.render(&mut data);
        assert!(equal(&data, &after_strokes));
    }
}

#[test]
fn redo_inverts_undo_with_a_rendering_in_between() {
    for j in 0..=4usize {
        let mut h = History::new();
        let mut data = blank_data();
        h.push(row(1, RED));
        h.push(row(2, GREEN));
        h.push(Operation::Eraser { path: vec![(10, 1), (40, 2)], size: 8 });
        h.push(dot(30, 2, BLUE));
        h.render(&mut data);
        let after_strokes = data;
        for _ in 0..j {
            h.undo();
        }
        h.render(&mut data);
        for _ in 0..j {
            h.redo();
        }
        h.render(&mut data);
        assert!(equal(&data, &after_strokes));
    }
}

#[test]
fn redo_beyond_the_top_changes_nothing() {
    let mut h = History::new();
    let mut data = blank_data();
    h.push(dot(1, 1, RED));
    h.redo();
    h.redo();
    h.render(&mut data);
    assert_eq!(count_not_white(&data), 1);
    h.undo();
    h.render(&mut data);
    assert_eq!(count_not_white(&data), 0);
}

#[test]
fn push_after_undo_discards_what_could_be_redone() {
    let mut h = History::new();
    let mut data = blank_data();
    h.push(dot(1, 1, RED));
    h.push(dot(2, 2, GREEN));
    h.push(dot(3, 3, BLUE));
    h.render(&mut data);
    h.undo();
    h.undo();
    h.render(&mut data);
    h.push(dot(4, 4, GREEN));
    h.redo();
    h.redo();
    h.render(&mut data);
    assert_eq!(data[1][1], RED);
    assert_eq!(data[2][2], WHITE);
    assert_eq!(data[3][3], WHITE);
    assert_eq!(data[4][4], GREEN);
    // Once the new stroke is undone, redo brings it back, and only it.
    h.undo();
    h.render(&mut data);
    assert_eq!(data[4][4], WHITE);
    h.redo();
    h.redo();
    h.render(&mut data);
    assert_eq!(data[4][4], GREEN);
    assert_eq!(count_not_white(&data), 2);
}

#[test]
fn clear_operation_whitens_and_can_be_undone() {
    let mut h = History::new();
    let mut data = blank_data();
    h.push(row(1, RED));
    h.push(Operation::Clear);
    h.render(&mut data);
    assert_eq!(count_not_white(&data), 0);
    h.undo();
    h.render(&mut data);
    assert_eq!(count_not_white(&data), 128);
}

#[test]
fn clear_forgets_everything() {
    let mut h = History::new();
    let mut data = blank_data();
    h.push(row(1, RED));
    h.render(&mut data);
    h.clear();
    h.redo();
    h.render(&mut data);
    // Nothing is recorded and nothing counts as painted: the grid stays.
    assert_eq!(count_not_white(&data), 128);
    h.push(dot(5, 5, GREEN));
    h.undo();
    h.render(&mut data);
    assert_eq!(count_not_white(&data), 128);
}

#[test]
fn eraser_stroke_of_one_point_is_a_square() {
    let mut h = History::new();
    let mut data = blank_data();
    h.push(row(20, RED));
    h.push(Operation::Eraser { path: vec![(50, 20)], size: 16 });
    h.render(&mut data);
    for x in 0..128 {
        let expected = if (42..58).contains(&x) { WHITE } else { RED };
        assert_eq!(data[x][20], expected, "x = {}", x);
    }
}

#[test]
fn pencil_stroke_of_one_point_beyond_the_grid_lands_on_the_edge() {
    let mut h = History::new();
    let mut data = blank_data();
    h.push(dot(200, 130, RED));
    h.render(&mut data);
    assert_eq!(data[127][127], RED);
    assert_eq!(count_not_white(&data), 1);
}

#[test]
fn pencil_stroke_joins_its_points() {
    let mut h = History::new();
    let mut data = blank_data();
    h.push(Operation::Pencil { path: vec![(0, 0), (0, 3), (3, 3)], color: RED });
    h.render(&mut data);
    let mut seen = Vec::new();
    for x in 0..128 {
        for y in 0..128 {
            if data[x][y] == RED {
                seen.push((x, y));
            }
        }
    }
    assert_eq!(seen, vec![(0, 0), (0, 1), (0, 2), (0, 3), (1, 3), (2, 3), (3, 3)]);
}
