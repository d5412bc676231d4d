use aspen::quality::{default_upper_center_roi, roi_search_windows, SubjectRoi};
use aspen::tags::{tag_label, FolderColor};

#[test]
fn upper_center_roi_is_two_fifths_of_the_frame() {
    assert_eq!(default_upper_center_roi(100, 200), SubjectRoi { x: 30, y: 36, w: 40, h: 80 });
    assert_eq!(default_upper_center_roi(10, 10), SubjectRoi { x: 1, y: 0, w: 8, h: 8 });
    assert_eq!(default_upper_center_roi(4, 4), SubjectRoi { x: 0, y: 0, w: 4, h: 4 });
}

#[test]
fn finder_tags() {
    assert_eq!(tag_label(FolderColor::Green), "Green\n2");
    assert_eq!(tag_label(FolderColor::Red), "Red\n6");
}

#[test]
fn subject_search_grid_covers_the_frame() {
    let (bw, bh, windows) = roi_search_windows(100, 80).unwrap();
    assert_eq!((bw, bh), (40, 32));
    assert_eq!(windows.len(), 20);
    assert_eq!(&windows[..5], &[(0, 0), (15, 0), (30, 0), (45, 0), (60, 0)]);
    assert_eq!(windows[5], (0, 16));
    assert_eq!(windows[19], (60, 48));
    assert!(roi_search_windows(20, 100).is_none());
    assert!(roi_search_windows(100, 31).is_none());
}
