use quickstitch::export::{file_name, get_num_digits, page_ranges_of, render_page};
use quickstitch::splitpoint::cut_rows_of;
use quickstitch::splitter::{find_splitpoints, splitpoints_from_roughness};
use quickstitch::{ImageOutputFormat, Splitpoint, Strip};

const NOISY: u8 = 0;
const FLAT: u8 = 1;

/// A strip `width` pixels wide whose rows are either flat grey or
/// alternate black and white pixels.
fn strip_of_rows(width: u32, kinds: &[u8]) -> Strip {
    let mut px = Vec::new();
    for kind in kinds {
        for x in 0..width {
            let v = if *kind == FLAT {
                90
            } else if x % 2 == 0 {
                0
            } else {
                255
            };
            px.extend_from_slice(&[v, v, v]);
        }
    }
    Strip::from_raw(width, kinds.len() as u32, px).unwrap()
}

fn cuts(sp: &Vec<Splitpoint>) -> Vec<usize> {
    cut_rows_of(sp)
}

#[test]
fn roughness_of_rows() {
    let s = strip_of_rows(4, &[NOISY, FLAT]);
    assert_eq!(s.row_roughness(), vec![255, 0]);
    // Pure red next to pure green: luma 54 and 182.
    let s = Strip::from_raw(2, 1, vec![255, 0, 0, 0, 255, 0]).unwrap();
    assert_eq!(s.row_roughness(), vec![128]);
    // A single column has no neighbours.
    let s = Strip::from_raw(1, 2, vec![1, 2, 3, 200, 100, 0]).unwrap();
    assert_eq!(s.row_roughness(), vec![0, 0]);
}

#[test]
fn from_raw_checks_length() {
    assert!(Strip::from_raw(2, 2, vec![0; 12]).is_some());
    assert!(Strip::from_raw(2, 2, vec![0; 11]).is_none());
    assert!(Strip::from_raw(0, 5, vec![]).is_some());
}

#[test]
fn splitpoint_methods() {
    let mut p = Splitpoint::Skipped(7);
    assert!(!p.is_cut());
    assert_eq!(p.get(), 7);
    p.switch();
    assert_eq!(p, Splitpoint::Cut(7));
    assert!(p.is_cut());
    p.switch();
    assert_eq!(p, Splitpoint::Skipped(7));
}

#[test]
fn cuts_land_on_uniform_gutters() {
    // Three flat rows end every block of 1000 rows; everything else is busy.
    let mut kinds = vec![NOISY; 3000];
    for end in [1000usize, 2000, 3000] {
        kinds[end - 1] = FLAT;
        kinds[end - 2] = FLAT;
        kinds[end - 3] = FLAT;
    }
    let s = strip_of_rows(4, &kinds);
    let sp = find_splitpoints(&s, 1000, 0, 1, 255);
    assert_eq!(
        sp,
        vec![
            Splitpoint::Cut(0),
            Splitpoint::Skipped(1000),
            Splitpoint::Cut(999),
            Splitpoint::Cut(1999),
            Splitpoint::Cut(2999),
            Splitpoint::Cut(3000),
        ]
    );
}

#[test]
fn short_strip_is_one_page() {
    let s = strip_of_rows(3, &[NOISY, FLAT, FLAT, FLAT, NOISY]);
    let sp = find_splitpoints(&s, 10, 2, 1, 200);
    assert_eq!(sp, vec![Splitpoint::Cut(0), Splitpoint::Cut(5)]);
    let s = strip_of_rows(3, &[]);
    assert_eq!(find_splitpoints(&s, 10, 2, 1, 200), vec![Splitpoint::Cut(0), Splitpoint::Cut(0)]);
}

#[test]
fn clean_triple_is_cut_and_earlier_rows_skipped() {
    // max 9, min 0: the first window is rows 9 down to 0.
    let rough = vec![9, 9, 0, 0, 0, 9, 9, 9, 9, 9, 9, 9, 9];
    let sp = splitpoints_from_roughness(&rough, 9, 0, 1, 250);
    assert_eq!(
        sp,
        vec![
            Splitpoint::Cut(0),
            Splitpoint::Skipped(9),
            Splitpoint::Skipped(8),
            Splitpoint::Skipped(7),
            Splitpoint::Skipped(6),
            Splitpoint::Skipped(5),
            Splitpoint::Cut(4),
            Splitpoint::Cut(13),
        ]
    );
}

#[test]
fn least_rough_row_is_promoted() {
    // No triple is clean at sensitivity 255; the triple starting at row 5
    // has the lowest maximum (3).
    let rough = vec![50, 50, 50, 3, 3, 3, 50, 50, 20, 20, 20, 50];
    let sp = splitpoints_from_roughness(&rough, 9, 0, 1, 255);
    assert_eq!(
        sp,
        vec![
            Splitpoint::Cut(0),
            Splitpoint::Skipped(9),
            Splitpoint::Skipped(8),
            Splitpoint::Skipped(7),
            Splitpoint::Skipped(6),
            Splitpoint::Cut(5),
            Splitpoint::Skipped(4),
            Splitpoint::Skipped(3),
            Splitpoint::Skipped(2),
            Splitpoint::Cut(12),
        ]
    );
}

#[test]
fn window_of_one_row_cuts_at_max_height() {
    let rough = vec![255; 25];
    let sp = splitpoints_from_roughness(&rough, 10, 10, 3, 128);
    assert_eq!(
        sp,
        vec![Splitpoint::Cut(0), Splitpoint::Cut(10), Splitpoint::Cut(20), Splitpoint::Cut(25)]
    );
}

#[test]
fn sampled_every_interval() {
    // Samples at 9, 7, 5, 3, 1; triple (5, 3, 1) is the first clean one.
    let rough = vec![9, 0, 9, 0, 9, 0, 9, 9, 9, 9, 9];
    let sp = splitpoints_from_roughness(&rough, 9, 0, 2, 255);
    assert_eq!(
        sp,
        vec![
            Splitpoint::Cut(0),
            Splitpoint::Skipped(9),
            Splitpoint::Skipped(7),
            Splitpoint::Cut(5),
            Splitpoint::Cut(11),
        ]
    );
}

#[test]
fn pages_bounded_and_cuts_increase() {
    let mut kinds = Vec::new();
    for i in 0..237u32 {
        kinds.push(if (i * 7) % 11 < 3 { FLAT } else { NOISY });
    }
    let s = strip_of_rows(5, &kinds);
    for (max, min, step, sens) in [(20usize, 5usize, 1usize, 255u8), (30, 0, 3, 200), (15, 15, 2, 0)] {
        let sp = find_splitpoints(&s, max, min, step, sens);
        assert_eq!(sp[0], Splitpoint::Cut(0));
        assert_eq!(*sp.last().unwrap(), Splitpoint::Cut(237));
        let c = cuts(&sp);
        for i in 0..c.len() - 1 {
            assert!(c[i] < c[i + 1]);
            assert!(c[i + 1] - c[i] <= max);
            if i + 2 < c.len() {
                assert!(c[i + 1] - c[i] >= min);
            }
        }
    }
}

#[test]
fn same_input_same_splitpoints() {
    let kinds: Vec<u8> = (0..300u32).map(|i| if i % 13 == 0 { FLAT } else { NOISY }).collect();
    let s = strip_of_rows(6, &kinds);
    let a = find_splitpoints(&s, 40, 10, 2, 230);
    let b = find_splitpoints(&s, 40, 10, 2, 230);
    assert_eq!(a, b);
}

#[test]
fn pages_restack_to_the_strip() {
    let kinds: Vec<u8> = (0..120u32).map(|i| if i % 9 < 3 { FLAT } else { NOISY }).collect();
    let s = strip_of_rows(3, &kinds);
    let sp = find_splitpoints(&s, 25, 5, 1, 240);
    let c = cuts(&sp);
    let ranges = page_ranges_of(&c);
    assert_eq!(ranges.len(), c.len() - 1);
    let pages: Vec<Strip> = ranges.iter().map(|(a, b)| s.crop_rows(*a, *b)).collect();
    let back = Strip::stack(3, &pages).unwrap();
    assert_eq!(back.width(), s.width());
    assert_eq!(back.height(), s.height());
    assert_eq!(back.pixels(), s.pixels());
}

#[test]
fn page_ranges_pair_neighbours() {
    assert_eq!(page_ranges_of(&vec![0, 4, 9]), vec![(0, 4), (4, 9)]);
    assert_eq!(page_ranges_of(&vec![0]), vec![]);
    assert_eq!(page_ranges_of(&vec![]), vec![]);
}

#[test]
fn digit_counts() {
    assert_eq!(get_num_digits(0), 1);
    assert_eq!(get_num_digits(9), 1);
    assert_eq!(get_num_digits(10), 2);
    assert_eq!(get_num_digits(12), 2);
    assert_eq!(get_num_digits(1000), 4);
    assert_eq!(get_num_digits(usize::MAX), usize::MAX.to_string().len());
}

#[test]
fn page_file_names() {
    assert_eq!(file_name(0, 3, ImageOutputFormat::Png), "1.png");
    assert_eq!(file_name(2, 3, ImageOutputFormat::Webp), "3.webp");
    assert_eq!(file_name(0, 12, ImageOutputFormat::Jpg(80)), "01.jpg");
    assert_eq!(file_name(11, 12, ImageOutputFormat::Jpeg(80)), "12.jpeg");
    assert_eq!(file_name(8, 9, ImageOutputFormat::Png), "9.png");
    assert_eq!(file_name(6, 120, ImageOutputFormat::Png), "007.png");
    assert_eq!(ImageOutputFormat::Jpeg(5).extension(), "jpeg");
}

#[test]
fn debug_overlay_marks_rows() {
    let s = strip_of_rows(2, &[FLAT, FLAT, FLAT, FLAT]);
    let markers = vec![
        Splitpoint::Cut(0),
        Splitpoint::Skipped(2),
        Splitpoint::Cut(1),
        Splitpoint::Cut(4),
    ];
    let plain = render_page(&s, &markers, 1, 3, false);
    assert_eq!(plain.pixels(), &vec![90u8; 12]);
    let page = render_page(&s, &markers, 1, 3, true);
    assert_eq!(page.height(), 2);
    assert_eq!(
        page.pixels(),
        &vec![255, 0, 0, 255, 0, 0, 53, 81, 92, 53, 81, 92]
    );
}
