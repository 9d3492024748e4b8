use shellshock_tracer::bitmap::{Bitmap, OutOfBounds, ARGB};
use shellshock_tracer::{Coordinate, Size};
use std::mem;

fn collect<T: Clone>(bitmap: &Bitmap<T>, start: Coordinate<usize>, size: Size<usize>) -> Vec<T> {
    let mut cells = Vec::new();
    let mut rows = bitmap.subrect(start, size);
    while let Some(row) = rows.next() {
        cells.extend_from_slice(row);
    }
    cells
}

#[test]
fn subrect_test() {
    let mut test_image = [ARGB { a: 255, r: 50, b: 50, g: 50 }; 100];
    for i in 0..50 {
        test_image[i] = ARGB { a: 255, r: 100, b: 100, g: 100 };
    }
    for i in [5usize, 15, 25, 35, 45, 55, 65, 75, 85, 95] {
        test_image[i] = ARGB { a: 255, r: 200, b: 200, g: 200 };
    }

    let bitmap = Bitmap::new(test_image.as_mut_slice(), 10);

    let pixels: Vec<ARGB> = collect(&bitmap, Coordinate(3, 3), Size(5, 5));

    let expected = [
        ARGB { b: 100, g: 100, r: 100, a: 255 }, ARGB { b: 100, g: 100, r: 100, a: 255 }, ARGB { b: 200, g: 200, r: 200, a: 255 },
        ARGB { b: 100, g: 100, r: 100, a: 255 }, ARGB { b: 100, g: 100, r: 100, a: 255 }, ARGB { b: 100, g: 100, r: 100, a: 255 },
        ARGB { b: 100, g: 100, r: 100, a: 255 }, ARGB { b: 200, g: 200, r: 200, a: 255 }, ARGB { b: 100, g: 100, r: 100, a: 255 },
        ARGB { b: 100, g: 100, r: 100, a: 255 }, ARGB { b: 50, g: 50, r: 50, a: 255 }, ARGB { b: 50, g: 50, r: 50, a: 255 },
        ARGB { b: 200, g: 200, r: 200, a: 255 }, ARGB { b: 50, g: 50, r: 50, a: 255 }, ARGB { b: 50, g: 50, r: 50, a: 255 },
        ARGB { b: 50, g: 50, r: 50, a: 255 }, ARGB { b: 50, g: 50, r: 50, a: 255 }, ARGB { b: 200, g: 200, r: 200, a: 255 },
        ARGB { b: 50, g: 50, r: 50, a: 255 }, ARGB { b: 50, g: 50, r: 50, a: 255 }, ARGB { b: 50, g: 50, r: 50, a: 255 },
        ARGB { b: 50, g: 50, r: 50, a: 255 }, ARGB { b: 200, g: 200, r: 200, a: 255 }, ARGB { b: 50, g: 50, r: 50, a: 255 },
        ARGB { b: 50, g: 50, r: 50, a: 255 }];

    assert_eq!(expected.as_slice(), pixels.as_slice());
}

#[test]
fn pre_mult_test() {
    let rgba = ARGB { r: 100, g: 100, b: 100, a: 50 };
    assert_eq!(0x32131313_u32, rgba.as_premult_alpha().into());
}

#[test]
fn layout_test() {
    assert_eq!(mem::size_of::<ARGB>(), 4);
    assert_eq!(mem::align_of::<ARGB>(), 1);
}

#[test]
fn premultiplied_channels_are_cut_off() {
    let scaled = ARGB { r: 255, g: 1, b: 128, a: 254 }.as_premult_alpha();
    assert_eq!(scaled, ARGB { r: 254, g: 0, b: 127, a: 254 });
}

#[test]
fn premultiplied_with_full_and_no_alpha() {
    let color = ARGB { r: 12, g: 200, b: 255, a: 255 };
    assert_eq!(color.as_premult_alpha(), color);
    let clear = ARGB { r: 12, g: 200, b: 255, a: 0 };
    assert_eq!(clear.as_premult_alpha(), ARGB { r: 0, g: 0, b: 0, a: 0 });
}

#[test]
fn colorref_has_blue_on_top_and_no_alpha() {
    let color = ARGB { r: 0x12, g: 0x34, b: 0x56, a: 0x78 };
    assert_eq!(color.as_colorref(), 0x0056_3412);
    assert_eq!(ARGB { r: 200, b: 100, g: 100, a: 255 }.as_colorref(), 0x0064_64c8);
}

#[test]
fn word_of_a_color_has_alpha_on_top() {
    let word: u32 = ARGB { r: 0x12, g: 0x34, b: 0x56, a: 0x78 }.into();
    assert_eq!(word, 0x7812_3456);
}

#[test]
fn color_of_a_word() {
    assert_eq!(ARGB::from(0x7812_3456), ARGB { r: 0x12, g: 0x34, b: 0x56, a: 0x78 });
    assert_eq!(ARGB::from(0), ARGB { r: 0, g: 0, b: 0, a: 0 });
    assert_eq!(ARGB::from(u32::MAX), ARGB { r: 255, g: 255, b: 255, a: 255 });
}

#[test]
fn packing_round_trips() {
    for word in [0u32, 1, 0xff, 0x100, 0xdead_beef, 0x8000_0000, 0x00ff_00ff, u32::MAX] {
        let color = ARGB::from(word);
        assert_eq!(u32::from(color), word);
    }
    for a in [0u8, 1, 127, 255] {
        for r in [0u8, 3, 254] {
            let color = ARGB { a, r, g: r.wrapping_add(a), b: a ^ 0x5a };
            assert_eq!(ARGB::from(u32::from(color)), color);
        }
    }
}

#[test]
fn height_is_length_over_width() {
    let mut cells = [0u8; 12];
    assert_eq!(Bitmap::new(cells.as_mut_slice(), 4).height(), 3);
    assert_eq!(Bitmap::new(cells.as_mut_slice(), 12).height(), 1);
    assert_eq!(Bitmap::new(cells.as_mut_slice(), 1).height(), 12);
    let mut none: [u8; 0] = [];
    assert_eq!(Bitmap::new(none.as_mut_slice(), 5).height(), 0);
}

#[test]
fn fill_rewrites_every_cell() {
    let mut cells = [1u32, 2, 3, 4, 5, 6];
    let mut bitmap = Bitmap::new(cells.as_mut_slice(), 3);
    bitmap.fill(9);
    assert_eq!(bitmap.width, 3);
    assert_eq!(bitmap.inner.to_vec(), vec![9, 9, 9, 9, 9, 9]);
    assert_eq!(cells, [9, 9, 9, 9, 9, 9]);
}

#[test]
fn fill_with_hands_out_indices_in_row_major_order() {
    let mut cells = [0usize; 6];
    let mut bitmap = Bitmap::new(cells.as_mut_slice(), 3);
    let mut seen = Vec::new();
    bitmap.fill_with(|i| {
        seen.push(i);
        10 * (i / 3) + i % 3
    });
    assert_eq!(seen, vec![0, 1, 2, 3, 4, 5]);
    assert_eq!(cells, [0, 1, 2, 10, 11, 12]);
}

#[test]
fn new_static_makes_a_filled_grid() {
    let bitmap = Bitmap::new_static(Size(4, 3), 7u16);
    assert_eq!(bitmap.width, 4);
    assert_eq!(bitmap.height(), 3);
    assert_eq!(bitmap.inner.len(), 12);
    assert!(bitmap.inner.iter().all(|cell| *cell == 7));
    let empty = Bitmap::new_static(Size(4, 0), 7u16);
    assert_eq!(empty.height(), 0);
}

#[test]
fn subrect_gives_rows_top_down() {
    let mut cells: Vec<u32> = (0..20).collect();
    let bitmap = Bitmap::new(cells.as_mut_slice(), 5);
    let mut rows = bitmap.subrect(Coordinate(1, 2), Size(2, 3));
    assert_eq!(rows.next(), Some([11u32, 12, 13].as_slice()));
    assert_eq!(rows.next(), Some([16u32, 17, 18].as_slice()));
    assert_eq!(rows.next(), None);
    assert_eq!(rows.next(), None);
}

#[test]
fn subrect_starts_again_each_time() {
    let mut cells: Vec<u32> = (0..20).collect();
    let bitmap = Bitmap::new(cells.as_mut_slice(), 5);
    let first = collect(&bitmap, Coordinate(0, 0), Size(4, 5));
    let second = collect(&bitmap, Coordinate(0, 0), Size(4, 5));
    assert_eq!(first, (0..20).collect::<Vec<u32>>());
    assert_eq!(first, second);
}

#[test]
fn subrect_without_rows_or_columns() {
    let mut cells: Vec<u32> = (0..20).collect();
    let bitmap = Bitmap::new(cells.as_mut_slice(), 5);
    assert_eq!(bitmap.subrect(Coordinate(5, 4), Size(0, 0)).next(), None);
    let mut rows = bitmap.subrect(Coordinate(2, 1), Size(2, 0));
    assert_eq!(rows.next(), Some([].as_slice()));
    assert_eq!(rows.next(), Some([].as_slice()));
    assert_eq!(rows.next(), None);
}

#[test]
fn checked_subrect_refuses_what_does_not_fit() {
    let mut cells: Vec<u32> = (0..20).collect();
    let bitmap = Bitmap::new(cells.as_mut_slice(), 5);
    assert_eq!(bitmap.checked_subrect(Coordinate(3, 0), Size(1, 3)).err(), Some(OutOfBounds));
    assert_eq!(bitmap.checked_subrect(Coordinate(0, 3), Size(2, 1)).err(), Some(OutOfBounds));
    assert_eq!(bitmap.checked_subrect(Coordinate(6, 0), Size(0, 0)).err(), Some(OutOfBounds));
    assert_eq!(bitmap.checked_subrect(Coordinate(0, 5), Size(0, 0)).err(), Some(OutOfBounds));
    assert_eq!(
        bitmap.checked_subrect(Coordinate(0, 0), Size(usize::MAX, usize::MAX)).err(),
        Some(OutOfBounds)
    );
}

#[test]
fn checked_subrect_gives_what_fits() {
    let mut cells: Vec<u32> = (0..20).collect();
    let bitmap = Bitmap::new(cells.as_mut_slice(), 5);
    let mut rows = bitmap.checked_subrect(Coordinate(3, 2), Size(2, 2)).ok().unwrap();
    assert_eq!(rows.next(), Some([13u32, 14].as_slice()));
    assert_eq!(rows.next(), Some([18u32, 19].as_slice()));
    assert_eq!(rows.next(), None);
}
