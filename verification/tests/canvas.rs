use key_art::art::{EncodingArt, KernelTerm};
use key_art::image::read_image;
use key_art::pixels::{brightness_of, pixel_str, GridPixel};
use key_art::spiral::{fits_canvas, kernel_radius_at, layer_cell_at};

/// Draws a complete canvas of `size` rows with the values given by `value_at`
/// (called with the drawing position), and returns the rendered text and the
/// cells in drawing order.
fn draw(size: usize, value_at: impl Fn(usize) -> usize) -> (String, Vec<(usize, usize)>) {
    let mut art = EncodingArt::new(0);
    let mut order = vec![];
    let mut t = 0;
    while let Some(req) = art.next_cell(size) {
        order.push((req.x, req.y));
        art.place(value_at(t));
        t += 1;
    }
    (art.render_image(), order)
}

#[test]
fn pixel_characters_map_to_levels() {
    let chars = [' ', '.', '-', '=', '+', '*', '#', '%', '@'];
    for (level, c) in chars.iter().enumerate() {
        assert_eq!(brightness_of(*c), level);
        assert_eq!(pixel_str(level), c.to_string());
    }
    assert_eq!(brightness_of('x'), 0);
    assert_eq!(brightness_of('│'), 0);
}

#[test]
fn grid_pixel_values() {
    assert_eq!(GridPixel::Val(3), GridPixel::Val(3));
    assert_ne!(GridPixel::Val(3), GridPixel::Empty);
}

#[test]
fn layer_cells_follow_bottom_row_then_right_columns() {
    let cells: Vec<(usize, usize)> = (0..6).map(|k| layer_cell_at(2, k)).collect();
    assert_eq!(cells, vec![(0, 1), (1, 1), (2, 1), (3, 1), (2, 0), (3, 0)]);
    let cells: Vec<(usize, usize)> = (0..10).map(|k| layer_cell_at(3, k)).collect();
    assert_eq!(
        cells,
        vec![(0, 2), (1, 2), (2, 2), (3, 2), (4, 2), (5, 2), (4, 1), (4, 0), (5, 1), (5, 0)]
    );
}

#[test]
fn kernel_radius_is_clamped() {
    assert_eq!(kernel_radius_at(1, 0), 1);
    assert_eq!(kernel_radius_at(6, 0), 3);
    assert_eq!(kernel_radius_at(6, 12), 3);
    assert_eq!(kernel_radius_at(12, 0), 5);
    assert_eq!(kernel_radius_at(12, 30), 3);
    assert_eq!(kernel_radius_at(31, 0), 5);
}

#[test]
fn drawing_order_of_two_rows() {
    let (_, order) = draw(2, |_| 1);
    assert_eq!(order, vec![(0, 0), (1, 0), (0, 1), (1, 1), (2, 1), (3, 1), (2, 0), (3, 0)]);
}

#[test]
fn drawing_order_visits_every_cell_once() {
    for n in 0..8usize {
        let (_, order) = draw(n, |_| 0);
        assert_eq!(order.len(), 2 * n * n);
        let mut seen = vec![vec![false; n]; 2 * n];
        for (x, y) in order {
            assert!(x < 2 * n && y < n);
            assert!(!seen[x][y]);
            seen[x][y] = true;
        }
    }
}

#[test]
fn requests_list_drawn_neighbours_with_distances() {
    let mut art = EncodingArt::new(7);
    assert_eq!(art.data_bits(), 7);
    let req = art.next_cell(1).unwrap();
    assert_eq!((req.x, req.y), (0, 0));
    assert!(req.terms.is_empty());
    assert_eq!((req.total_tiles, req.total_empty), (0, 0));
    art.place(4);
    let req = art.next_cell(1).unwrap();
    assert_eq!((req.x, req.y), (1, 0));
    assert_eq!(req.terms, vec![KernelTerm { value: 4, distance: 1 }]);
    assert_eq!((req.total_tiles, req.total_empty), (1, 0));
    art.place(0);
    assert!(art.next_cell(1).is_none());
    assert_eq!(art.grid_size(), 1);
    let req = art.next_cell(2).unwrap();
    assert_eq!((req.x, req.y), (0, 1));
    // radius 1: offsets -1 and 0 only, so (1, 0) is outside the window
    assert_eq!(req.terms, vec![KernelTerm { value: 4, distance: 1 }]);
    assert_eq!((req.total_tiles, req.total_empty), (2, 1));
}

#[test]
fn neighbour_distances_are_positive() {
    let mut art = EncodingArt::new(0);
    let mut t = 0;
    while let Some(req) = art.next_cell(9) {
        for term in &req.terms {
            assert!(term.distance > 0);
            assert!(term.distance <= 1250);
            assert!(term.value < 9);
        }
        art.place(t % 9);
        t += 1;
    }
}

#[test]
fn render_one_row() {
    let (text, _) = draw(1, |t| [1, 2][t]);
    assert_eq!(text, "╭──╮\n│.-│\n╰──╯");
}

#[test]
fn render_empty_canvas() {
    let (text, _) = draw(0, |_| 0);
    assert_eq!(text, "╭╮\n╰╯");
}

#[test]
fn render_two_rows() {
    // cells in drawing order: (0,0) (1,0) (0,1) (1,1) (2,1) (3,1) (2,0) (3,0)
    let (text, _) = draw(2, |t| t + 1);
    assert_eq!(text, "╭────╮\n│.-%@│\n│=+*#│\n╰────╯");
}

#[test]
fn rendered_image_reads_back() {
    for n in 1..7usize {
        let mut art = EncodingArt::new(0);
        let mut placed = vec![];
        let mut t = 0usize;
        while let Some(_) = art.next_cell(n) {
            let v = (t * 7 + 3) % 9;
            placed.push(v);
            art.place(v);
            t += 1;
        }
        let text = art.render_image();
        let img = read_image(&text);
        assert_eq!(img.size(), n);
        let mut replay = EncodingArt::new(0);
        let mut t = 0usize;
        while let Some(req) = replay.next_cell(img.size()) {
            let level = img.level(req.x, req.y);
            assert_eq!(level, placed[t]);
            replay.place(level);
            t += 1;
        }
        assert_eq!(replay.render_image(), text);
    }
}

#[test]
fn read_readme_image() {
    let text = "╭──────────────╮\n│ .....   -=...│\n│        .*=  .│\n│ -      = --  │\n│  . .*= #.=-  │\n│ .  .#=-= .. %│\n│ .   += .+  - │\n│   + -  .   +*│\n╰──────────────╯";
    let img = read_image(text);
    assert_eq!(img.size(), 7);
    assert_eq!(img.level(0, 0), 0);
    assert_eq!(img.level(1, 0), 1);
    assert_eq!(img.level(9, 0), 2);
    assert_eq!(img.level(10, 0), 3);
    assert_eq!(img.level(9, 1), 5);
    assert_eq!(img.level(13, 4), 7);
    assert_eq!(img.level(13, 6), 5);
}

#[test]
fn read_short_image_pads_with_blank() {
    let img = read_image("╭────╮\n│@");
    assert_eq!(img.size(), 2);
    assert_eq!(img.level(0, 0), 8);
    assert_eq!(img.level(1, 0), 0);
    assert_eq!(img.level(3, 1), 0);
}

#[test]
fn reading_ignores_trailing_newline_and_bottom_line() {
    let (text, _) = draw(4, |t| (t * 4 + 1) % 9);
    let full = read_image(&text);
    let more = read_image(&format!("{text}\n"));
    let cut = text.rfind('\n').unwrap();
    let typed = read_image(&text[..cut + 1]);
    for img in [&more, &typed] {
        assert_eq!(img.size(), full.size());
        for x in 0..8 {
            for y in 0..4 {
                assert_eq!(img.level(x, y), full.level(x, y));
            }
        }
    }
}

#[test]
fn image_text_is_rendering_of_its_levels() {
    let text = "╭──────────────╮\n│ .....   -=...│\n│        .*=  .│\n│ -      = --  │\n│  . .*= #.=-  │\n│ .  .#=-= .. %│\n│ .   += .+  - │\n│   + -  .   +*│\n╰──────────────╯";
    let img = read_image(text);
    let mut art = EncodingArt::new(0);
    while let Some(req) = art.next_cell(img.size()) {
        art.place(img.level(req.x, req.y));
    }
    assert_eq!(art.render_image(), text);
}

#[test]
fn larger_image_extends_smaller() {
    let value = |t: usize| (t * 7 + 2) % 9;
    let small = read_image(&draw(3, value).0);
    let large = read_image(&draw(6, value).0);
    for x in 0..6 {
        for y in 0..3 {
            assert_eq!(small.level(x, y), large.level(x, y));
        }
    }
}

#[test]
fn requests_ignore_target_size_and_data_bits() {
    let mut a = EncodingArt::new(0);
    let mut b = EncodingArt::new(99);
    let mut t = 0usize;
    while let Some(ra) = a.next_cell(3) {
        let rb = b.next_cell(7).unwrap();
        assert_eq!((ra.x, ra.y, ra.total_tiles, ra.total_empty), (rb.x, rb.y, rb.total_tiles, rb.total_empty));
        assert_eq!(ra.terms, rb.terms);
        a.place(t % 9);
        b.place(t % 9);
        t += 1;
    }
    assert_eq!(t, 18);
}

#[test]
fn canvas_fits_while_its_cells_can_be_counted() {
    assert!(fits_canvas(0));
    assert!(fits_canvas(31));
    assert!(fits_canvas(46340));
    assert!(!fits_canvas(usize::MAX));
    if usize::BITS == 64 {
        assert!(fits_canvas(3037000499));
        assert!(!fits_canvas(3037000500));
    }
}
