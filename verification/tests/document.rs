use image::Rgba;
use spritist::clipboard::{copy, cut, paste, ClipboardState};
use spritist::config::{
    get_config, load_config_file, save_config_file, ConfigState, Theme, TransparentColor,
};
use spritist::error::{FormatError, Violation};
use spritist::file::{
    background_grid, drop_files, is_background, save_refusal, set_bg_size, set_pixel_format,
    DropAction, FileState, Frame,
};
use spritist::format::PixelFormat;
use spritist::history::{
    add_state_to_history, get_current_state, redo, set_current_state, undo, HistoryItem,
    HistoryState,
};
use spritist::palette::{
    load_palette, original_palette, reversed_palette, swap_palette, swap_palette_for_frame,
    translate_colors, translate_colors_for_frame,
};
use spritist::raster::RgbaImage;
use spritist::selection::{
    delete_frames, deselect_all, insert_frames, insert_point, move_frames, paste_frames,
    replace_frames, select_all, selection_contains, update_selection, SelectionState,
};
use spritist::state::{frame_index, redraw, reset_state, update_window_title};
use spritist::view::{reset_zoom, set_zoom_scale, zoom_in, zoom_out, ViewState};

fn tagged(tag: u8) -> Frame {
    Frame { image: RgbaImage::new(1, 1).unwrap(), color_indexes: vec![tag] }
}

fn tags(frames: &[Frame]) -> Vec<u8> {
    frames.iter().map(|frame| frame.color_indexes[0]).collect()
}

fn five() -> Vec<Frame> {
    vec![tagged(0), tagged(1), tagged(2), tagged(3), tagged(4)]
}

#[test]
fn selected_frames_are_deleted() {
    assert_eq!(tags(&delete_frames(&five(), &vec![3, 1])), vec![0, 2, 4]);
    assert_eq!(tags(&delete_frames(&five(), &vec![])), vec![0, 1, 2, 3, 4]);
    assert_eq!(tags(&delete_frames(&five(), &vec![9, 0, 0])), vec![1, 2, 3, 4]);
    assert!(selection_contains(&vec![4, 2], 2));
    assert!(!selection_contains(&vec![4, 2], 3));
}

#[test]
fn selected_frames_are_moved_in_front_of_the_target() {
    let (frames, selected) = move_frames(&five(), &vec![1, 3], 5).unwrap();
    assert_eq!(tags(&frames), vec![0, 2, 4, 1, 3]);
    assert_eq!(selected, vec![3, 4]);
    let (frames, selected) = move_frames(&five(), &vec![3, 4], 0).unwrap();
    assert_eq!(tags(&frames), vec![3, 4, 0, 1, 2]);
    assert_eq!(selected, vec![0, 1]);
    let (frames, selected) = move_frames(&five(), &vec![0, 4], 2).unwrap();
    assert_eq!(tags(&frames), vec![1, 0, 4, 2, 3]);
    assert_eq!(selected, vec![1, 2]);
    let (frames, selected) = move_frames(&five(), &vec![], 2).unwrap();
    assert_eq!(tags(&frames), vec![0, 1, 2, 3, 4]);
    assert!(selected.is_empty());
}

#[test]
fn a_target_outside_the_frames_moves_nothing() {
    assert!(move_frames(&five(), &vec![1], 7).is_none());
    assert!(move_frames(&five(), &vec![0, 0, 0], 2).is_none());
}

#[test]
fn new_frames_go_behind_the_last_selected() {
    assert_eq!(insert_point(&vec![1, 3, 2], 5), Some(4));
    assert_eq!(insert_point(&vec![], 5), Some(5));
    assert_eq!(insert_point(&vec![usize::MAX], 5), None);
    let (frames, selected) = paste_frames(&five(), &vec![1], &vec![tagged(8), tagged(9)]).unwrap();
    assert_eq!(tags(&frames), vec![0, 1, 8, 9, 2, 3, 4]);
    assert_eq!(selected, vec![2, 3]);
    let (frames, selected) = paste_frames(&five(), &vec![], &vec![tagged(8)]).unwrap();
    assert_eq!(tags(&frames), vec![0, 1, 2, 3, 4, 8]);
    assert_eq!(selected, vec![5]);
    assert!(paste_frames(&five(), &vec![5], &vec![tagged(8)]).is_none());
    assert_eq!(tags(&insert_frames(&five(), 0, &vec![tagged(7)])), vec![7, 0, 1, 2, 3, 4]);
}

#[test]
fn selection_state() {
    let mut state = SelectionState { selected_frames: vec![] };
    select_all(&mut state, 3);
    assert_eq!(state.selected_frames, vec![0, 1, 2]);
    update_selection(&mut state, vec![2]);
    assert_eq!(state.selected_frames, vec![2]);
    deselect_all(&mut state);
    assert!(state.selected_frames.is_empty());
}

#[test]
fn copying_keeps_the_selected_frames_in_their_order() {
    let mut clipboard = ClipboardState { copied_frames: vec![] };
    copy(&mut clipboard, &five(), &vec![4, 0]);
    assert_eq!(tags(&clipboard.copied_frames), vec![0, 4]);
}

#[test]
fn zoom_stays_between_one_and_four() {
    let mut view = ViewState { zoom_scale: 1 };
    assert_eq!(zoom_out(&mut view), 1);
    assert_eq!(zoom_in(&mut view), 2);
    assert_eq!(zoom_in(&mut view), 3);
    assert_eq!(zoom_in(&mut view), 4);
    assert_eq!(zoom_in(&mut view), 4);
    assert_eq!(view.zoom_scale, 4);
    assert_eq!(zoom_out(&mut view), 3);
    assert_eq!(reset_zoom(&mut view), 1);
    assert_eq!(set_zoom_scale(&mut view, 0), 1);
    assert_eq!(set_zoom_scale(&mut view, 9), 4);
    assert_eq!(set_zoom_scale(&mut view, 2), 2);
    view.zoom_scale = u32::MAX;
    assert_eq!(zoom_in(&mut view), 4);
    view.zoom_scale = 0;
    assert_eq!(zoom_out(&mut view), 1);
}

fn snapshot(tag: u8) -> HistoryItem {
    HistoryItem { frames: vec![tagged(tag)], palette: original_palette(), selected_frames: vec![tag as usize] }
}

#[test]
fn undo_and_redo() {
    let mut history = HistoryState { undo_stack: vec![], redo_stack: vec![] };
    // nothing to go back to
    assert_eq!(tags(&undo(&mut history, snapshot(9)).frames), vec![9]);
    assert!(history.redo_stack.is_empty());
    add_state_to_history(&mut history, snapshot(1));
    add_state_to_history(&mut history, snapshot(2));
    let back = undo(&mut history, snapshot(3));
    assert_eq!(tags(&back.frames), vec![2]);
    assert_eq!((history.undo_stack.len(), history.redo_stack.len()), (1, 1));
    let forth = redo(&mut history, back);
    assert_eq!(tags(&forth.frames), vec![3]);
    assert_eq!((history.undo_stack.len(), history.redo_stack.len()), (2, 0));
    assert_eq!(tags(&redo(&mut history, snapshot(7)).frames), vec![7]);
    let back = undo(&mut history, forth);
    assert_eq!(back.selected_frames, vec![2]);
    // an edit drops what could be gone forward to
    add_state_to_history(&mut history, back);
    assert_eq!((history.undo_stack.len(), history.redo_stack.len()), (2, 0));
}

#[test]
fn settings_text() {
    let state = ConfigState::new();
    assert_eq!(
        save_config_file(&state).concat(),
        "show_image_info: true\ntransparent_color: black\ntheme: dark\nshow_toolbar: true"
    );
    let other = ConfigState {
        show_image_info: false,
        transparent_color: TransparentColor::Transparent,
        theme: Theme::Purple,
        show_toolbar: false,
    };
    assert_eq!(
        save_config_file(&other).concat(),
        "show_image_info: false\ntransparent_color: none\ntheme: purple\nshow_toolbar: false"
    );
    let info = get_config(&other);
    assert_eq!(info.transparent_color, "none");
    assert_eq!(info.theme, "purple");
    assert!(!info.show_image_info);
    assert!(!info.show_toolbar);
    assert_eq!(TransparentColor::White.name(), "white");
    assert_eq!(Theme::Light.name(), "light");
}

#[test]
fn settings_are_read_line_by_line() {
    let start = ConfigState::new();
    let text = "show_image_info: false\n  transparent_color :white \ntheme:light:dark\nshow_toolbar: false";
    let loaded = load_config_file(start, text);
    assert_eq!(
        loaded,
        ConfigState {
            show_image_info: false,
            transparent_color: TransparentColor::White,
            theme: Theme::Light,
            show_toolbar: false,
        }
    );
    assert_eq!(load_config_file(loaded, save_config_file(&start).concat().as_str()), start);
    assert_eq!(load_config_file(start, ""), start);
    assert_eq!(load_config_file(start, "theme purple\nno such: thing\n\n:"), start);
    // any value but the known ones gives the default of the setting
    let odd = load_config_file(loaded, "theme: blue\ntransparent_color: \nshow_toolbar: no\nshow_image_info:");
    assert_eq!(odd, start);
    assert_eq!(load_config_file(start, "transparent_color: none\r\n").transparent_color, TransparentColor::Transparent);
    assert_eq!(load_config_file(start, "theme: purple").theme, Theme::Purple);
}

#[test]
fn titles() {
    assert_eq!(update_window_title(false, "x.c16", true, true, Some("p")).concat(), "Spritist");
    assert_eq!(update_window_title(true, "", false, false, None).concat(), "Untitled - Spritist");
    assert_eq!(update_window_title(true, "norn.c16", true, false, None).concat(), "*norn.c16 - Spritist");
    assert_eq!(
        update_window_title(true, "norn.spr", false, true, Some("reversed palette")).concat(),
        "norn.spr (read-only) - using reversed palette - Spritist"
    );
    assert_eq!(update_window_title(true, "", true, true, Some("a")).concat(), "*Untitled (read-only) - using a - Spritist");
}

#[test]
fn frame_requests() {
    assert_eq!(frame_index("/frame-12"), Some(12));
    assert_eq!(frame_index("-0"), Some(0));
    assert_eq!(frame_index("/a-b-3"), None);
    assert_eq!(frame_index("/frame-+7"), Some(7));
    assert_eq!(frame_index("/frame-"), None);
    assert_eq!(frame_index("/frame-+"), None);
    assert_eq!(frame_index("/frame12"), None);
    assert_eq!(frame_index("/frame-1x"), None);
    assert_eq!(frame_index(""), None);
    assert_eq!(frame_index("-99999999999999999999999999"), None);
    assert_eq!(frame_index(&format!("-{}", usize::MAX)), Some(usize::MAX));
    assert_eq!(frame_index("-007"), Some(7));
}

#[test]
fn redraw_payload() {
    let payload = redraw(3, &vec![1, 2], 58, 8);
    assert_eq!(payload.frame_count, 3);
    assert_eq!(payload.selected_frames, vec![1, 2]);
    assert_eq!((payload.cols, payload.rows), (58, 8));
}

#[test]
fn new_document() {
    let state = FileState::new();
    assert!(state.file_title.is_empty());
    assert!(state.file_path.is_none());
    assert!(!state.file_is_open && !state.file_is_modified && !state.read_only);
    assert!(state.frames.is_empty());
    assert_eq!(state.pixel_format, PixelFormat::Format565);
    assert_eq!((state.cols, state.rows), (0, 0));
    assert_eq!(state.palette.colors[11], (16, 8, 8));
}

#[test]
fn backgrounds_are_known_by_name() {
    assert_eq!(background_grid("back.spr"), Some((58, 8)));
    assert_eq!(background_grid("Back.S16"), Some((58, 16)));
    assert_eq!(background_grid("back.c16"), None);
    assert!(is_background(Some("BLK"), "meadow.blk"));
    assert!(is_background(Some("spr"), "BACK.SPR"));
    assert!(!is_background(Some("spr"), "norn.spr"));
    assert!(!is_background(None, "blk"));
}

#[test]
fn dropped_files() {
    assert_eq!(drop_files(true, 3, 1), DropAction::Insert);
    assert_eq!(drop_files(false, 0, 2), DropAction::Insert);
    assert_eq!(drop_files(true, 0, 1), DropAction::Open);
    assert_eq!(drop_files(false, 5, 1), DropAction::Open);
    assert_eq!(drop_files(false, 0, 0), DropAction::Ignore);
    assert_eq!(drop_files(true, 1, 0), DropAction::Insert);
}

#[test]
fn refusals() {
    assert_eq!(save_refusal(".png"), "Use Export PNG or Export Spritesheet instead.");
    assert_eq!(save_refusal(".GIF"), "Use Export GIF instead.");
    assert_eq!(
        save_refusal(".spr"),
        "File is in a SPR format Spritist can read but not write. Use Save As to save a copy in the standard SPR format."
    );
    assert_eq!(save_refusal("norn.png"), "File is read-only. Use Save As or Export instead.");
}

#[test]
fn swapping_the_palette_keeps_the_indexes() {
    let palette = reversed_palette();
    let frame = Frame { image: RgbaImage::new(2, 1).unwrap(), color_indexes: vec![0, 249] };
    let swapped = swap_palette_for_frame(&frame, &palette).unwrap();
    assert_eq!(swapped.color_indexes, vec![0, 249]);
    assert_eq!(swapped.image.pixel(0, 0), Some(Rgba([0, 0, 0, 0])));
    assert_eq!(swapped.image.pixel(1, 0), Some(Rgba([255, 0, 0, 255])));
    let other = Frame { image: RgbaImage::new(1, 1).unwrap(), color_indexes: vec![244] };
    assert_eq!(
        swap_palette_for_frame(&other, &palette).unwrap().image.pixel(0, 0),
        Some(Rgba([16, 8, 8, 255]))
    );
    let bare = Frame { image: RgbaImage::new(2, 1).unwrap(), color_indexes: vec![3] };
    assert_eq!(
        swap_palette_for_frame(&bare, &palette).err(),
        Some(FormatError::StructuralViolation(Violation::MissingColorIndexes))
    );
    let empty = Frame { image: RgbaImage::new(0, 0).unwrap(), color_indexes: vec![] };
    assert!(swap_palette_for_frame(&empty, &palette).is_ok());
    assert_eq!(
        swap_palette(&vec![frame.clone(), bare], &palette).err(),
        Some(FormatError::StructuralViolation(Violation::MissingColorIndexes))
    );
    assert_eq!(swap_palette(&vec![frame.clone(), frame], &palette).unwrap().len(), 2);
}

#[test]
fn translating_matches_every_pixel() {
    let palette = original_palette();
    let mut image = RgbaImage::new(2, 1).unwrap();
    image.set_pixel(0, 0, Rgba([254, 2, 2, 255]));
    image.set_pixel(1, 0, Rgba([9, 9, 9, 0]));
    // the indexes that the frame carried are dropped
    let frame = Frame { image, color_indexes: vec![77, 78] };
    let translated = translate_colors_for_frame(&frame, &palette).unwrap();
    assert_eq!(translated.color_indexes, vec![249, 0]);
    assert_eq!(translated.image.pixel(0, 0), Some(Rgba([255, 0, 0, 255])));
    assert_eq!(translated.image.pixel(1, 0), Some(Rgba([0, 0, 0, 0])));
    let all = translate_colors(&vec![frame.clone(), frame], &palette).unwrap();
    assert_eq!(all.len(), 2);
    assert_eq!(all[1].color_indexes, vec![249, 0]);
}

#[test]
fn palette_files_are_loaded_under_their_name() {
    let palette = load_palette(Some("norn.pal".to_string()), &[0x3f; 768]).unwrap();
    assert_eq!(palette.file_name.as_deref(), Some("norn.pal"));
    assert_eq!(palette.colors[0], (252, 252, 252));
    assert_eq!(palette.colors[255], (255, 255, 255));
    assert_eq!(palette.get_color(0), Rgba([0, 0, 0, 0]));
    assert_eq!(
        load_palette(None, &[1, 2, 3]).err(),
        Some(FormatError::StructuralViolation(Violation::InvalidPaletteSize))
    );
}

#[test]
fn cutting_and_pasting() {
    let mut clipboard = ClipboardState { copied_frames: vec![] };
    let left = cut(&mut clipboard, &five(), &vec![1, 2]);
    assert_eq!(tags(&left), vec![0, 3, 4]);
    assert_eq!(tags(&clipboard.copied_frames), vec![1, 2]);
    let (frames, selected) = paste(&clipboard, &left, &vec![0]).unwrap();
    assert_eq!(tags(&frames), vec![0, 1, 2, 3, 4]);
    assert_eq!(selected, vec![1, 2]);
    assert!(paste(&clipboard, &left, &vec![3]).is_none());
}

#[test]
fn snapshots_of_the_document() {
    let mut file = FileState::new();
    file.frames = five();
    file.file_title = "norn.c16".to_string();
    let mut selection = SelectionState { selected_frames: vec![2] };
    let item = get_current_state(&file, &selection);
    assert_eq!(tags(&item.frames), vec![0, 1, 2, 3, 4]);
    assert_eq!(item.selected_frames, vec![2]);
    assert_eq!(item.palette.colors[11], (16, 8, 8));
    file.frames = vec![tagged(9)];
    selection.selected_frames = vec![];
    file.file_is_modified = true;
    set_current_state(&mut file, &mut selection, item);
    assert_eq!(tags(&file.frames), vec![0, 1, 2, 3, 4]);
    assert_eq!(selection.selected_frames, vec![2]);
    assert_eq!(file.file_title, "norn.c16");
    assert!(file.file_is_modified);
}

#[test]
fn resetting_forgets_everything() {
    let mut file = FileState::new();
    file.frames = five();
    file.file_is_open = true;
    file.read_only = true;
    set_bg_size(&mut file, 58, 8);
    set_pixel_format(&mut file, PixelFormat::Format555);
    assert_eq!((file.cols, file.rows, file.pixel_format), (58, 8, PixelFormat::Format555));
    let mut selection = SelectionState { selected_frames: vec![1] };
    let mut history = HistoryState { undo_stack: vec![snapshot(1)], redo_stack: vec![snapshot(2)] };
    let mut view = ViewState { zoom_scale: 3 };
    reset_state(&mut file, &mut selection, &mut history, &mut view);
    assert!(file.frames.is_empty() && !file.file_is_open && !file.read_only);
    assert_eq!((file.cols, file.rows, file.pixel_format), (0, 0, PixelFormat::Format565));
    assert!(selection.selected_frames.is_empty());
    assert!(history.undo_stack.is_empty() && history.redo_stack.is_empty());
    assert_eq!(view.zoom_scale, 1);
}

#[test]
fn selected_frames_are_replaced() {
    let (frames, selected) = replace_frames(&five(), &vec![3, 1], &vec![tagged(8), tagged(9)]).unwrap();
    assert_eq!(tags(&frames), vec![0, 8, 9, 2, 4]);
    assert_eq!(selected, vec![1, 2]);
    let (frames, selected) = replace_frames(&five(), &vec![], &vec![tagged(8)]).unwrap();
    assert_eq!(tags(&frames), vec![0, 1, 2, 3, 4, 8]);
    assert_eq!(selected, vec![5]);
    let (frames, selected) = replace_frames(&five(), &vec![4], &vec![]).unwrap();
    assert_eq!(tags(&frames), vec![0, 1, 2, 3]);
    assert!(selected.is_empty());
    assert!(replace_frames(&five(), &vec![7], &vec![tagged(8)]).is_none());
}
