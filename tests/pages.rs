use slickscan::ledger::{ScanEntry, SelectionLedger};
use slickscan::normalize::{
    insert_after_every, normalize_frame, repeat_all_elements, FrameError, FrameFormat,
};
use slickscan::pdf::{
    char_is_white_space, pdf_file_name, plan_pdf, PageSize, Ratio, SaveError, DEFAULT_FILE_NAME,
    DEFAULT_SCAN_DPI,
};

fn frame(width: usize, height: usize) -> ScanEntry<u32> {
    ScanEntry {
        pixels: vec![0; width * height * 3],
        width,
        height,
        texture_handle: 0,
        selected_as_page: None,
        saved_to_file: false,
    }
}

#[test]
fn gray_frame_is_spread_over_three_channels() {
    let f = normalize_frame(vec![10, 20, 30, 40], FrameFormat::Gray, 2).unwrap();
    assert_eq!(f.pixels, vec![10, 10, 10, 20, 20, 20, 30, 30, 30, 40, 40, 40]);
    assert_eq!(
        f.rgba,
        vec![10, 10, 10, 255, 20, 20, 20, 255, 30, 30, 30, 255, 40, 40, 40, 255]
    );
    assert_eq!((f.width, f.height), (2, 2));
}

#[test]
fn rgb_frame_keeps_its_bytes() {
    let raw = vec![1, 2, 3, 4, 5, 6, 7, 8, 9, 10, 11, 12];
    let f = normalize_frame(raw.clone(), FrameFormat::Rgb, 6).unwrap();
    assert_eq!(f.pixels, raw);
    assert_eq!(f.rgba, vec![1, 2, 3, 255, 4, 5, 6, 255, 7, 8, 9, 255, 10, 11, 12, 255]);
    assert_eq!((f.width, f.height), (2, 2));
}

#[test]
fn single_channel_frames_of_each_colour_are_spread() {
    for format in [FrameFormat::Red, FrameFormat::Green, FrameFormat::Blue] {
        let f = normalize_frame(vec![7, 9], format, 1).unwrap();
        assert_eq!(f.pixels, vec![7, 7, 7, 9, 9, 9]);
        assert_eq!((f.width, f.height), (1, 2));
    }
}

#[test]
fn empty_frame_has_no_lines() {
    let f = normalize_frame(Vec::new(), FrameFormat::Gray, 4).unwrap();
    assert!(f.pixels.is_empty() && f.rgba.is_empty());
    assert_eq!((f.width, f.height), (4, 0));
}

#[test]
fn bad_frames_are_refused() {
    assert_eq!(normalize_frame(vec![1, 2], FrameFormat::Gray, 0).err(), Some(FrameError::BadLineLength));
    assert_eq!(normalize_frame(vec![1, 2], FrameFormat::Gray, -2).err(), Some(FrameError::BadLineLength));
    assert_eq!(normalize_frame(vec![1, 2, 3, 4], FrameFormat::Rgb, 4).err(), Some(FrameError::BadLineLength));
    assert_eq!(normalize_frame(vec![1, 2, 3, 4, 5], FrameFormat::Gray, 2).err(), Some(FrameError::IncompleteLine));
}

#[test]
fn repeat_and_insert_helpers() {
    assert_eq!(repeat_all_elements(vec![1, 2], 3), vec![1, 1, 1, 2, 2, 2]);
    assert_eq!(repeat_all_elements(vec![1, 2], 0), Vec::<i32>::new());
    assert_eq!(repeat_all_elements(Vec::<u8>::new(), 4), Vec::<u8>::new());
    assert_eq!(insert_after_every(vec![1, 2, 3, 4, 5], 2, 0), vec![1, 2, 0, 3, 4, 0, 5]);
    assert_eq!(insert_after_every(vec![1, 2, 3], 1, 9), vec![1, 9, 2, 9, 3, 9]);
    assert_eq!(insert_after_every(vec![1, 2], 3, 9), vec![1, 2]);
    assert_eq!(
        insert_after_every(vec![String::from("a"), String::from("b")], 2, String::from("|")),
        vec![String::from("a"), String::from("b"), String::from("|")]
    );
}

#[test]
fn selecting_pages_numbers_them_in_order() {
    let mut pages: Vec<ScanEntry<u32>> = (0..5).map(|_| frame(2, 2)).collect();
    let mut ledger = SelectionLedger::new();
    for i in [3, 0, 4] {
        assert!(ledger.select_next(&mut pages, i));
    }
    assert_eq!(ledger.selected_page_indices, vec![3, 0, 4]);
    assert_eq!(ledger.pages_selected(), 3);
    assert_eq!(pages[3].selected_as_page, Some(0));
    assert_eq!(pages[0].selected_as_page, Some(1));
    assert_eq!(pages[4].selected_as_page, Some(2));
    assert_eq!(pages[1].selected_as_page, None);
    assert!(!ledger.select_next(&mut pages, 0));
    assert!(!ledger.select_next(&mut pages, 5));
    assert_eq!(ledger.pages_selected(), 3);
}

#[test]
fn clearing_from_a_position_rewinds() {
    let mut pages: Vec<ScanEntry<u32>> = (0..4).map(|_| frame(1, 1)).collect();
    let mut ledger = SelectionLedger::new();
    for i in [2, 1, 3] {
        ledger.select_next(&mut pages, i);
    }
    ledger.clear_selection_from(&mut pages, 1);
    assert_eq!(ledger.selected_page_indices, vec![2]);
    assert_eq!(pages[2].selected_as_page, Some(0));
    assert_eq!(pages[1].selected_as_page, None);
    assert_eq!(pages[3].selected_as_page, None);
    assert!(ledger.select_next(&mut pages, 3));
    assert_eq!(pages[3].selected_as_page, Some(1));
    ledger.clear_selection_from(&mut pages, 7);
    assert_eq!(ledger.selected_page_indices, vec![2, 3]);
}

#[test]
fn clearing_everything_empties_the_ledger() {
    let mut pages: Vec<ScanEntry<u32>> = (0..3).map(|_| frame(1, 1)).collect();
    let mut ledger = SelectionLedger::new();
    ledger.clear_selection(&mut pages);
    assert!(ledger.selected_page_indices.is_empty());
    ledger.select_next(&mut pages, 1);
    ledger.select_next(&mut pages, 2);
    ledger.clear_selection(&mut pages);
    assert!(ledger.selected_page_indices.is_empty());
    assert!(pages.iter().all(|p| p.selected_as_page.is_none()));
}

#[test]
fn marking_saved_keeps_the_choice() {
    let mut pages: Vec<ScanEntry<u32>> = (0..3).map(|_| frame(1, 1)).collect();
    let mut ledger = SelectionLedger::new();
    ledger.select_next(&mut pages, 0);
    ledger.select_next(&mut pages, 2);
    ledger.mark_selection_saved(&mut pages);
    assert!(pages[0].saved_to_file && pages[2].saved_to_file);
    assert!(!pages[1].saved_to_file);
    assert_eq!(ledger.selected_page_indices, vec![0, 2]);
    assert_eq!(pages[2].selected_as_page, Some(1));
}

#[test]
fn saving_without_pages_fails_first() {
    let pages: Vec<ScanEntry<u32>> = vec![frame(2, 2)];
    let ledger = SelectionLedger::new();
    let r = plan_pdf(&ledger, &pages, true, PageSize::letter(), DEFAULT_SCAN_DPI);
    assert_eq!(r, Err(SaveError::NoPagesSelected));
    let r = plan_pdf(&ledger, &pages, false, PageSize::letter(), DEFAULT_SCAN_DPI);
    assert_eq!(r, Err(SaveError::NoPagesSelected));
}

#[test]
fn saving_without_location_fails() {
    let mut pages: Vec<ScanEntry<u32>> = vec![frame(2, 2)];
    let mut ledger = SelectionLedger::new();
    ledger.select_next(&mut pages, 0);
    let r = plan_pdf(&ledger, &pages, false, PageSize::letter(), DEFAULT_SCAN_DPI);
    assert_eq!(r, Err(SaveError::NoOutputLocation));
}

#[test]
fn page_naming_no_frame_fails() {
    let pages: Vec<ScanEntry<u32>> = vec![frame(2, 2)];
    let ledger = SelectionLedger { selected_page_indices: vec![0, 4] };
    let r = plan_pdf(&ledger, &pages, true, PageSize::letter(), DEFAULT_SCAN_DPI);
    assert_eq!(r, Err(SaveError::PageOutOfRange));
}

#[test]
fn letter_page_plan_scales_to_fill() {
    let mut pages: Vec<ScanEntry<u32>> = vec![frame(2550, 3300), frame(1275, 1100)];
    let mut ledger = SelectionLedger::new();
    ledger.select_next(&mut pages, 1);
    ledger.select_next(&mut pages, 0);
    let plan = plan_pdf(&ledger, &pages, true, PageSize::letter(), DEFAULT_SCAN_DPI).unwrap();
    assert_eq!(plan.len(), 2);
    assert_eq!(plan[0].page_index, 1);
    assert_eq!((plan[0].width_px, plan[0].height_px), (1275, 1100));
    assert_eq!(plan[0].scale_x, Ratio { num: 215900 * 300, den: 25400 * 1275 });
    assert_eq!(plan[0].scale_y, Ratio { num: 279400 * 300, den: 25400 * 1100 });
    assert_eq!(plan[1].page_index, 0);
    // a frame of exactly 8.5 by 11 inches at 300 dpi is drawn at scale one
    assert_eq!(plan[1].scale_x.num, plan[1].scale_x.den);
    assert_eq!(plan[1].scale_y.num, plan[1].scale_y.den);
}

#[test]
fn a4_page_size() {
    let s = PageSize::a4();
    assert_eq!((s.width_um, s.height_um), (210000, 297000));
}

#[test]
fn file_names() {
    assert_eq!(pdf_file_name(""), DEFAULT_FILE_NAME);
    assert_eq!(pdf_file_name("  \t"), "scan.pdf");
    assert_eq!(pdf_file_name("\u{3000}"), "scan.pdf");
    assert_eq!(pdf_file_name("letters/june"), "letters/june.pdf");
    assert_eq!(pdf_file_name(" a "), " a .pdf");
}

#[test]
fn insert_into_nothing_with_no_period() {
    assert_eq!(insert_after_every(Vec::<u8>::new(), 0, 255), Vec::<u8>::new());
    assert_eq!(insert_after_every(Vec::<u8>::new(), 3, 255), Vec::<u8>::new());
}

#[test]
fn white_space_characters() {
    for c in [' ', '\t', '\n', '\r', '\u{b}', '\u{c}', '\u{85}', '\u{a0}', '\u{1680}', '\u{2000}', '\u{200a}', '\u{2028}', '\u{2029}', '\u{202f}', '\u{205f}', '\u{3000}'] {
        assert!(char_is_white_space(c), "{c:?}");
        assert!(c.is_whitespace());
    }
    for c in ['a', '0', '\u{200b}', '\u{feff}', '\u{180e}', '_'] {
        assert!(!char_is_white_space(c), "{c:?}");
        assert_eq!(c.is_whitespace(), false);
    }
}

#[test]
fn clicking_selects_or_rewinds() {
    let mut pages: Vec<ScanEntry<u32>> = (0..4).map(|_| frame(1, 1)).collect();
    let mut ledger = SelectionLedger::new();
    for i in [2, 0, 3] {
        ledger.click_page(&mut pages, i);
    }
    assert_eq!(ledger.selected_page_indices, vec![2, 0, 3]);
    ledger.click_page(&mut pages, 0);
    assert_eq!(ledger.selected_page_indices, vec![2]);
    assert_eq!(pages[0].selected_as_page, None);
    assert_eq!(pages[3].selected_as_page, None);
    assert_eq!(pages[2].selected_as_page, Some(0));
    ledger.click_page(&mut pages, 9);
    assert_eq!(ledger.selected_page_indices, vec![2]);
}

#[test]
fn finishing_a_save_marks_and_clears() {
    let mut pages: Vec<ScanEntry<u32>> = (0..3).map(|_| frame(1, 1)).collect();
    let mut ledger = SelectionLedger::new();
    ledger.click_page(&mut pages, 1);
    ledger.click_page(&mut pages, 2);
    ledger.finish_save(&mut pages);
    assert!(ledger.selected_page_indices.is_empty());
    assert!(pages.iter().all(|p| p.selected_as_page.is_none()));
    assert_eq!(pages.iter().map(|p| p.saved_to_file).collect::<Vec<_>>(), vec![false, true, true]);
}
