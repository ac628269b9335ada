use std::cmp::Ordering;
use std::io::Cursor;

use quickstitch::export::{collect_errors, encode_page};
use quickstitch::loader::{compare_names, find_images, has_image_extension, lex_compare, load_images};
use quickstitch::{
    ImageLoaderError, ImageOutputFormat, ImageSplitterError, Sort, Stitcher, Strip,
};

fn png_bytes(width: u32, height: u32, shade: u8) -> Vec<u8> {
    let img = image::RgbImage::from_pixel(width, height, image::Rgb([shade, shade, shade]));
    let mut out = Vec::new();
    img.write_to(&mut Cursor::new(&mut out), image::ImageFormat::Png).unwrap();
    out
}

fn names(list: &[&str]) -> Vec<String> {
    list.iter().map(|s| s.to_string()).collect()
}

#[test]
fn natural_and_logical_order() {
    let files = names(&["9.jpg", "10.jpg", "8.jpg"]);
    assert_eq!(find_images(files.clone(), Sort::Natural).unwrap(), names(&["8.jpg", "9.jpg", "10.jpg"]));
    assert_eq!(find_images(files, Sort::Logical).unwrap(), names(&["10.jpg", "8.jpg", "9.jpg"]));
}

#[test]
fn four_names_in_both_orders() {
    let files = names(&["9.jpeg", "10.jpeg", "8.jpeg", "11.jpeg"]);
    assert_eq!(
        find_images(files.clone(), Sort::Logical).unwrap(),
        names(&["10.jpeg", "11.jpeg", "8.jpeg", "9.jpeg"])
    );
    assert_eq!(
        find_images(files, Sort::Natural).unwrap(),
        names(&["8.jpeg", "9.jpeg", "10.jpeg", "11.jpeg"])
    );
}

#[test]
fn only_image_extensions_are_kept() {
    let files = names(&["b.png", "notes.txt", "a.webp", "c.PNG", ".png", "d.jpeg", "sub", "e.jpg.bak"]);
    assert_eq!(find_images(files, Sort::Logical).unwrap(), names(&["a.webp", "b.png", "d.jpeg"]));
    assert!(has_image_extension("x.jpg"));
    assert!(has_image_extension("a.b.png"));
    assert!(!has_image_extension(".jpg"));
    assert!(!has_image_extension("jpg"));
    assert!(!has_image_extension("x.Jpg"));
    assert!(!has_image_extension("x."));
}

#[test]
fn no_images_is_an_error() {
    let r = find_images(names(&["a.txt", "b"]), Sort::Natural);
    assert!(matches!(r, Err(ImageLoaderError::NoImagesInDirectory)));
    assert!(matches!(find_images(vec![], Sort::Logical), Err(ImageLoaderError::NoImagesInDirectory)));
}

#[test]
fn code_point_comparison() {
    assert_eq!(lex_compare("abc", "abd"), Ordering::Less);
    assert_eq!(lex_compare("ab", "abc"), Ordering::Less);
    assert_eq!(lex_compare("b", "abc"), Ordering::Greater);
    assert_eq!(lex_compare("Z", "a"), Ordering::Less);
    assert_eq!(lex_compare("same", "same"), Ordering::Equal);
    let (a, b) = ("page2.png".to_string(), "page10.png".to_string());
    assert_eq!(compare_names(Sort::Natural, &a, &b), Ordering::Less);
    assert_eq!(compare_names(Sort::Logical, &a, &b), Ordering::Greater);
}

#[test]
fn strip_height_is_sum_of_heights() {
    let sources = vec![Ok(png_bytes(4, 3, 10)), Ok(png_bytes(4, 5, 20))];
    let s = load_images(sources, None, false).unwrap();
    assert_eq!(s.width(), 4);
    assert_eq!(s.height(), 8);
    assert_eq!(&s.pixels()[..3], &[10, 10, 10]);
    assert_eq!(&s.pixels()[s.pixels().len() - 3..], &[20, 20, 20]);
}

#[test]
fn narrowest_source_sets_width() {
    // 6x3 resized to width 4 keeps its aspect ratio: 4x2.
    let sources = vec![Ok(png_bytes(6, 3, 50)), Ok(png_bytes(4, 7, 60))];
    let s = load_images(sources, None, false).unwrap();
    assert_eq!(s.width(), 4);
    assert_eq!(s.height(), 2 + 7);
    assert_eq!(s.pixels().len(), 4 * 9 * 3);
}

#[test]
fn given_width_resizes_all() {
    let sources = vec![Ok(png_bytes(4, 4, 0)), Ok(png_bytes(8, 2, 0))];
    let s = load_images(sources, Some(2), false).unwrap();
    assert_eq!(s.width(), 2);
    assert_eq!(s.height(), 2 + 1);
}

#[test]
fn corrupt_source_skipped_when_ignored() {
    let sources = vec![
        Ok(png_bytes(3, 2, 1)),
        Ok(png_bytes(3, 4, 2)),
        Ok(vec![1, 2, 3, 4, 5]),
        Ok(png_bytes(3, 1, 3)),
        Ok(png_bytes(3, 5, 4)),
    ];
    let s = load_images(sources, None, true).unwrap();
    assert_eq!(s.width(), 3);
    assert_eq!(s.height(), 2 + 4 + 1 + 5);
}

#[test]
fn corrupt_source_fails_when_not_ignored() {
    let sources = vec![Ok(png_bytes(3, 2, 1)), Ok(vec![0; 10]), Ok(png_bytes(3, 1, 3))];
    assert!(matches!(load_images(sources, None, false), Err(ImageLoaderError::ImageError(_))));
}

#[test]
fn unreadable_source_passes_its_error() {
    let sources = vec![Ok(png_bytes(3, 2, 1)), Err(ImageLoaderError::PermissionDenied)];
    assert!(matches!(load_images(sources, None, false), Err(ImageLoaderError::PermissionDenied)));
    let sources = vec![Err(ImageLoaderError::NotFound), Ok(png_bytes(3, 2, 1))];
    let s = load_images(sources, None, true).unwrap();
    assert_eq!(s.height(), 2);
}

#[test]
fn nothing_to_load() {
    assert!(matches!(load_images(vec![], None, false), Err(ImageLoaderError::NoImagesInDirectory)));
    let s = load_images(vec![], Some(7), false).unwrap();
    assert_eq!((s.width(), s.height()), (7, 0));
    let only_bad = vec![Ok(vec![9u8; 4])];
    assert!(matches!(load_images(only_bad, None, true), Err(ImageLoaderError::NoImagesInDirectory)));
}

#[test]
fn encoded_page_decodes_back() {
    let px: Vec<u8> = (0..2 * 3 * 3).map(|i| (i * 13) as u8).collect();
    let page = Strip::from_raw(2, 3, px.clone()).unwrap();
    for format in [ImageOutputFormat::Png, ImageOutputFormat::Webp] {
        let bytes = encode_page(&page, format).unwrap();
        assert_ne!(bytes, px);
        let back = image::load_from_memory(&bytes).unwrap().into_rgb8();
        assert_eq!((back.width(), back.height()), (2, 3));
        assert_eq!(back.into_raw(), px);
    }
    let jpeg = encode_page(&page, ImageOutputFormat::Jpg(90)).unwrap();
    assert_eq!(&jpeg[..2], &[0xFF, 0xD8]);
    let back = image::load_from_memory(&jpeg).unwrap();
    assert_eq!((back.width(), back.height()), (2, 3));
}

#[test]
fn errors_are_collected_in_order() {
    assert!(collect_errors(vec![Ok(()), Ok(())]).is_ok());
    assert!(collect_errors(vec![]).is_ok());
    let r = collect_errors(vec![
        Ok(()),
        Err(ImageSplitterError::PermissionDenied),
        Ok(()),
        Err(ImageSplitterError::DirectoryNotFound),
    ]);
    let errs = r.unwrap_err();
    assert_eq!(errs.len(), 2);
    assert!(matches!(errs[0], ImageSplitterError::PermissionDenied));
    assert!(matches!(errs[1], ImageSplitterError::DirectoryNotFound));
}

#[test]
fn missing_output_directory_writes_nothing() {
    let sources = vec![Ok(png_bytes(3, 30, 0))];
    let stitched = Stitcher::new().load(sources, None, false).unwrap().stitch(10, 2, 1, 200);
    match stitched.export(false, ImageOutputFormat::Png, false) {
        Err(errs) => {
            assert_eq!(errs.len(), 1);
            assert!(matches!(errs[0], ImageSplitterError::DirectoryNotFound));
        }
        Ok(_) => panic!("export into a missing directory succeeded"),
    }
}

#[test]
fn stitcher_exports_numbered_pages() {
    let sources = vec![Ok(png_bytes(3, 30, 0)), Ok(png_bytes(3, 20, 255))];
    let loaded = Stitcher::new().load(sources, None, false).unwrap();
    assert_eq!(loaded.view_image().height(), 50);
    let stitched = loaded.stitch(10, 2, 1, 200);
    let cuts: Vec<usize> =
        stitched.splitpoits().iter().filter(|p| p.is_cut()).map(|p| p.get()).collect();
    assert_eq!(cuts, vec![0, 10, 20, 30, 40, 50]);
    let pages = stitched.export(true, ImageOutputFormat::Png, true).unwrap();
    assert_eq!(pages.len(), 5);
    for (i, page) in pages.iter().enumerate() {
        let f = page.as_ref().unwrap();
        assert_eq!(f.name, format!("{}.png", i + 1));
        let img = image::load_from_memory(&f.bytes).unwrap().into_rgb8();
        assert_eq!((img.width(), img.height()), (3, 10));
    }
}

#[test]
fn empty_page_fails_to_encode() {
    let page = Strip::from_raw(3, 0, vec![]).unwrap();
    assert!(matches!(encode_page(&page, ImageOutputFormat::Png), Err(ImageSplitterError::ImageError(_))));
}
