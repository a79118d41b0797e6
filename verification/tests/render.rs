use mazm::maze::Mazm;

fn buffer(cells: &[[u8; 4]]) -> Vec<u8> {
    let mut dat: Vec<u8> = Vec::new();
    for c in cells {
        dat.extend_from_slice(c);
    }
    dat
}

fn bright() -> [u8; 4] {
    [255, 255, 255, 0]
}

fn dark() -> [u8; 4] {
    [0, 0, 0, 0]
}

#[test]
fn render_of_fresh_single_cell() {
    let m = Mazm::new(&buffer(&[bright()]), 1, 0).unwrap();
    assert_eq!(m.render(), "<i class=\"\"></i><br/>");
}

#[test]
fn render_labels_closed_and_empty_cells() {
    let m = Mazm::new(&buffer(&[dark(), dark(), dark(), bright()]), 2, 0).unwrap();
    assert_eq!(
        m.render(),
        "<i class=\"closed\"></i><i class=\"closed\"></i><br/>\
         <i class=\"closed\"></i><i class=\"\"></i><br/>"
    );
}

#[test]
fn render_labels_horizontal_link() {
    let mut m = Mazm::new(&buffer(&[bright(), bright(), bright(), bright()]), 2, 0).unwrap();
    m.tick(&vec![0]);
    assert_eq!(
        m.render(),
        "<i class=\" r\"></i><i class=\" l\"></i><br/>\
         <i class=\"\"></i><i class=\"\"></i><br/>"
    );
}

#[test]
fn render_labels_vertical_link() {
    let mut m = Mazm::new(&buffer(&[bright(), bright(), bright(), bright()]), 2, 0).unwrap();
    m.tick(&vec![1]);
    // Top renders as a bare `t`; the other sides carry a leading space.
    assert_eq!(
        m.render(),
        "<i class=\" b\"></i><i class=\"\"></i><br/>\
         <i class=\"t\"></i><i class=\"\"></i><br/>"
    );
}

#[test]
fn render_appends_labels_in_fixed_order() {
    let mut m = Mazm::new(&buffer(&[bright(); 9]), 3, 4).unwrap();
    // Carve all four passages of the centre cell.
    m.link(4, 1);
    m.link(4, 3);
    m.link(4, 5);
    m.link(4, 7);
    let rendered = m.render();
    assert!(rendered.contains("<i class=\"t l r b\"></i>"));
}

#[test]
fn render_twice_without_tick_is_identical() {
    let mut m = Mazm::new(&buffer(&[bright(), bright(), dark(), bright()]), 2, 1).unwrap();
    m.tick(&vec![3, 1, 4]);
    assert_eq!(m.render(), m.render());
}

#[test]
fn render_does_not_mutate() {
    let mut m = Mazm::new(&buffer(&[bright(), bright(), bright(), bright()]), 2, 2).unwrap();
    m.tick(&vec![0, 1]);
    let cells = m.cells.clone();
    let (current, time) = (m.current, m.time);
    let _ = m.render();
    assert_eq!(m.cells, cells);
    assert_eq!(m.current, current);
    assert_eq!(m.time, time);
}
