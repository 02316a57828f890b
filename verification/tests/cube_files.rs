use film_simulation_lut_learning::cube::{parse_lut3d_cube, parse_residual_cube, CubeError, Lut3D};
use film_simulation_lut_learning::cube_text::{check_float_literal, parse_usize, split_line_words};

fn chars(s: &str) -> Vec<char> {
    s.chars().collect()
}

fn text(t: &Vec<char>) -> String {
    t.iter().collect()
}

#[test]
fn split_lines_and_words() {
    let lines = split_line_words(&chars("  a bc\td\n\nx\u{3000}y \r\n"));
    assert_eq!(lines.len(), 4);
    let words: Vec<Vec<String>> =
        lines.iter().map(|l| l.iter().map(text).collect()).collect();
    assert_eq!(words[0], vec!["a", "bc", "d"]);
    assert!(words[1].is_empty());
    assert_eq!(words[2], vec!["x", "y"]);
    assert!(words[3].is_empty());
}

#[test]
fn usize_literals() {
    assert_eq!(parse_usize(&chars("33")), Some(33));
    assert_eq!(parse_usize(&chars("+17")), Some(17));
    assert_eq!(parse_usize(&chars("007")), Some(7));
    assert_eq!(parse_usize(&chars("")), None);
    assert_eq!(parse_usize(&chars("+")), None);
    assert_eq!(parse_usize(&chars("-1")), None);
    assert_eq!(parse_usize(&chars("1.5")), None);
    assert_eq!(parse_usize(&chars("99999999999999999999999")), None);
    for s in ["0", "12", "+3", "-0", "x", "18446744073709551615", "18446744073709551616"] {
        assert_eq!(parse_usize(&chars(s)), s.parse::<usize>().ok(), "{}", s);
    }
}

#[test]
fn float_literals_follow_f32_from_str() {
    let cases = [
        "0.000000", "1.0", "-0.5", "+.5", "5.", ".", "", "1e5", "1E-5", "2.5e+3", "1e", "e1",
        "inf", "-INF", "Infinity", "infinit", "NaN", "+nan", "1.2.3", "0x10", "1_0", "--1",
        "1e5.0", " 1", "١",
    ];
    for s in cases {
        assert_eq!(check_float_literal(&chars(s)), s.parse::<f32>().is_ok(), "{:?}", s);
    }
}

const SMALL_CUBE: &str = "# Comments\nTITLE \"Test\"\nLUT_3D_SIZE 2\nDOMAIN_MIN 0 0 0\nDOMAIN_MAX 1 1 1\n\n0 0 0\n0 0 1\n0 1 0\n0 1 1\n1 0 0\n1 0 1\n1 1 0\n1 1 1\n";

#[test]
fn full_cube_reads_size_and_entries() {
    let table = parse_lut3d_cube(&chars(SMALL_CUBE)).unwrap();
    assert_eq!(table.size, 2);
    assert_eq!(table.entries.len(), 8);
    assert_eq!(text(&table.entries[1].2), "1");
    assert_eq!(text(&table.entries[4].0), "1");
    let values: Vec<u32> = table
        .entries
        .iter()
        .map(|e| {
            let r: u32 = text(&e.0).parse().unwrap();
            let g: u32 = text(&e.1).parse().unwrap();
            let b: u32 = text(&e.2).parse().unwrap();
            r * 4 + g * 2 + b
        })
        .collect();
    let lut = Lut3D::from_flat(2, &values);
    // blue changes fastest in the file
    for r in 0..2u32 {
        for g in 0..2u32 {
            for b in 0..2u32 {
                assert_eq!(lut.data[r as usize][g as usize][b as usize], r * 4 + g * 2 + b);
            }
        }
    }
}

#[test]
fn full_cube_errors() {
    assert!(matches!(parse_lut3d_cube(&chars("0 0 0\n")), Err(CubeError::MissingSize)));
    assert!(matches!(
        parse_lut3d_cube(&chars("LUT_3D_SIZE 0\n0 0 0\n")),
        Err(CubeError::MissingSize)
    ));
    assert!(matches!(
        parse_lut3d_cube(&chars("LUT_3D_SIZE abc\n")),
        Err(CubeError::InvalidSize)
    ));
    assert!(matches!(
        parse_lut3d_cube(&chars("LUT_3D_SIZE 2\n0 0 x\n")),
        Err(CubeError::InvalidValue)
    ));
    // the first malformed token in file order decides the error
    assert!(matches!(
        parse_lut3d_cube(&chars("0 0 x\nLUT_3D_SIZE abc\n")),
        Err(CubeError::InvalidValue)
    ));
    match parse_lut3d_cube(&chars("LUT_3D_SIZE 2\n0 0 0\n1 1 1\n")) {
        Err(CubeError::WrongCount { size, found }) => {
            assert_eq!(size, 2);
            assert_eq!(found, 2);
        }
        _ => panic!("expected a count error"),
    }
    // a LUT_3D_SIZE line without a value is skipped, comments are skipped
    let t = parse_lut3d_cube(&chars("LUT_3D_SIZE\nLUT_3D_SIZE 1\n# x y z\n0.5 0.25 1e-3 extra\n"))
        .unwrap();
    assert_eq!(t.size, 1);
    assert_eq!(text(&t.entries[0].2), "1e-3");
}

#[test]
fn residual_cube_reads_three_number_lines() {
    let src = "TITLE \"Residual LUT\"\nLUT_3D_SIZE 17\nDOMAIN_MIN 0.0 0.0 0.0\nDOMAIN_MAX 1.0 1.0 1.0\n\n0.010000 -0.020000 0.000000\n1 2\n0.5 0.5 0.5 0.5\n-0.1 0.2 0.3\n";
    let entries = parse_residual_cube(&chars(src)).unwrap();
    assert_eq!(entries.len(), 2);
    assert_eq!(text(&entries[0].1), "-0.020000");
    assert_eq!(text(&entries[1].0), "-0.1");
    assert!(matches!(parse_residual_cube(&chars("1 2 z\n")), Err(CubeError::InvalidValue)));
    // comment lines are not special in this layout
    assert!(matches!(parse_residual_cube(&chars("# a b\n")), Err(CubeError::InvalidValue)));
}
