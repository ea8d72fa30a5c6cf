use mge::sheet::cut_sheet;

fn sheet(w: u32, h: u32) -> Vec<u8> {
    let mut v = Vec::new();
    for y in 0..h {
        for x in 0..w {
            v.extend_from_slice(&[x as u8, y as u8, (x * 7 + y) as u8, 255]);
        }
    }
    v
}

#[test]
fn cut_sheet_rejects_bad_frame_sizes() {
    let img = sheet(8, 8);
    assert_eq!(cut_sheet(&img, 8, 8, 0, 4).unwrap_err(), "帧尺寸 0x4 与精灵表 8x8 不符");
    assert!(cut_sheet(&img, 8, 8, 4, 0).is_err());
    assert_eq!(cut_sheet(&img, 8, 8, 9, 2).unwrap_err(), "帧尺寸 9x2 与精灵表 8x8 不符");
    assert!(cut_sheet(&img, 8, 8, 2, 12).is_err());
}

#[test]
fn cut_sheet_frames_row_by_row() {
    let img = sheet(9, 5);
    let frames = cut_sheet(&img, 9, 5, 4, 2).unwrap();
    assert_eq!(frames.len(), 4);
    for f in &frames {
        assert_eq!(f.len(), 4 * 2 * 4);
    }
    // frame 1 is row 0, column 1: its pixel (0, 0) is sheet pixel (4, 0)
    assert_eq!(&frames[1][0..4], &[4, 0, 28, 255]);
    // frame 2 is row 1, column 0: its pixel (3, 1) is sheet pixel (3, 3)
    let k = ((1 * 4 + 3) * 4) as usize;
    assert_eq!(&frames[2][k..k + 4], &[3, 3, 24, 255]);
    let whole = cut_sheet(&img, 9, 5, 9, 5).unwrap();
    assert_eq!(whole.len(), 1);
    assert_eq!(whole[0], img);
}
