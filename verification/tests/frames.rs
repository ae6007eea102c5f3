use babel_stream::slideshow::chafa_size_arg;
use babel_stream::slideshow::is_frame_name;
use babel_stream::slideshow::magick_resize_arg;
use babel_stream::slideshow::select_frames;
use babel_stream::textart::decode_ascii_art;

fn names(list: &[&str]) -> Vec<Vec<u8>> {
    list.iter().map(|s| s.as_bytes().to_vec()).collect()
}

#[test]
fn frame_extensions() {
    assert!(is_frame_name(&b"a.png".to_vec()));
    assert!(is_frame_name(&b"photo.jpg".to_vec()));
    assert!(is_frame_name(&b"logo.svg".to_vec()));
    assert!(is_frame_name(&b"archive.tar.png".to_vec()));
    assert!(!is_frame_name(&b"a.txt".to_vec()));
    assert!(!is_frame_name(&b"a.PNG".to_vec()));
    assert!(!is_frame_name(&b"a.jpeg".to_vec()));
    assert!(!is_frame_name(&b"png".to_vec()));
    assert!(!is_frame_name(&b".png".to_vec()));
    assert!(!is_frame_name(&b"".to_vec()));
}

#[test]
fn select_frames_filters_and_sorts() {
    let input = names(&["b.png", "readme.md", "a.jpg", "c.svg", "a.txt"]);
    let out = select_frames(&input);
    assert_eq!(out, names(&["a.jpg", "b.png", "c.svg"]));
}

#[test]
fn select_frames_keeps_duplicates() {
    let input = names(&["x.png", "x.png", "a.svg"]);
    let out = select_frames(&input);
    assert_eq!(out, names(&["a.svg", "x.png", "x.png"]));
}

#[test]
fn select_frames_empty_when_nothing_matches() {
    let input = names(&["readme.md", "notes.txt", "frames"]);
    let out = select_frames(&input);
    assert!(out.is_empty());
    let none: Vec<Vec<u8>> = Vec::new();
    assert!(select_frames(&none).is_empty());
}

#[test]
fn converter_arguments() {
    assert_eq!(chafa_size_arg(80, 24), b"--size=80x24".to_vec());
    assert_eq!(chafa_size_arg(7, 105), b"--size=7x105".to_vec());
    assert_eq!(magick_resize_arg(80, 24), b"-resize 80x24!".to_vec());
    assert_eq!(magick_resize_arg(0, 65535), b"-resize 0x65535!".to_vec());
}

#[test]
fn decode_black_and_white_pixels() {
    let txt = b"0,0: #000000\n1,0: #FFFFFF\n2,1: #123456\n".to_vec();
    // the two x,0 lines each start a row; the third line only paints
    let art = decode_ascii_art(&txt);
    assert_eq!(art, b" \n#\n#".to_vec());
}

#[test]
fn decode_trims_the_color_value() {
    let txt = b"3,1:   #000000  \n".to_vec();
    let art = decode_ascii_art(&txt);
    assert_eq!(art, b" ".to_vec());
}

#[test]
fn decode_skips_lines_without_marker() {
    let txt = b"no marker here\n4,2: #ffffff\n".to_vec();
    let art = decode_ascii_art(&txt);
    assert_eq!(art, b"#".to_vec());
}

#[test]
fn decode_handles_crlf_and_bare_row_mark() {
    let txt = b"5,0: \r\n6,3: #000000\r\n".to_vec();
    // first line: marker present, value empty (not black) -> '#', row mark -> newline
    let art = decode_ascii_art(&txt);
    assert_eq!(art, b"#\n ".to_vec());
}

#[test]
fn decode_empty_output() {
    assert_eq!(decode_ascii_art(&Vec::new()), Vec::<u8>::new());
}
