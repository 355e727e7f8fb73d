use maze_generator::config::{parse_hex_color, Algorithm};

#[test]
fn hex_colors_are_read_with_and_without_hash() {
    assert_eq!(parse_hex_color("#ff0000"), Ok([255, 0, 0]));
    assert_eq!(parse_hex_color("ff0000"), Ok([255, 0, 0]));
    assert_eq!(parse_hex_color("#FF0000"), Ok([255, 0, 0]));
    assert_eq!(parse_hex_color("FF0000"), Ok([255, 0, 0]));
    assert_eq!(parse_hex_color("  #1a2B3c\n"), Ok([0x1a, 0x2b, 0x3c]));
    assert_eq!(parse_hex_color("000000"), Ok([0, 0, 0]));
    assert_eq!(parse_hex_color("+1+a+F"), Ok([1, 10, 15]));
    assert_eq!(parse_hex_color("\u{3000}#0a0b0c\u{a0}"), Ok([10, 11, 12]));
}

#[test]
fn hex_colors_of_the_wrong_length_are_refused() {
    assert_eq!(
        parse_hex_color("#fff"),
        Err("Hex color must be 6 digits, got: fff".to_string())
    );
    assert_eq!(
        parse_hex_color(""),
        Err("Hex color must be 6 digits, got: ".to_string())
    );
    assert_eq!(
        parse_hex_color("##ff0000"),
        Err("Hex color must be 6 digits, got: #ff0000".to_string())
    );
    assert_eq!(
        parse_hex_color("ff 0000"),
        Err("Hex color must be 6 digits, got: ff 0000".to_string())
    );
}

#[test]
fn hex_colors_with_bad_digits_name_the_channel() {
    assert_eq!(
        parse_hex_color("gg0000"),
        Err("Invalid hex color (R): invalid digit found in string".to_string())
    );
    assert_eq!(
        parse_hex_color("00-100"),
        Err("Invalid hex color (G): invalid digit found in string".to_string())
    );
    assert_eq!(
        parse_hex_color("#0000f+"),
        Err("Invalid hex color (B): invalid digit found in string".to_string())
    );
    assert_eq!(
        parse_hex_color("zzzzzz"),
        Err("Invalid hex color (R): invalid digit found in string".to_string())
    );
}

#[test]
fn hex_parsing_agrees_with_the_standard_library_on_ascii() {
    let samples = ["a1b2c3", "+0+0+0", "0+0000", "7f7f7f", "ABCDEF", "abcdeg", "12345", "1234567"];
    for sample in samples {
        let expected: Option<[u8; 3]> = if sample.len() == 6 {
            match (
                u8::from_str_radix(&sample[0..2], 16),
                u8::from_str_radix(&sample[2..4], 16),
                u8::from_str_radix(&sample[4..6], 16),
            ) {
                (Ok(r), Ok(g), Ok(b)) => Some([r, g, b]),
                _ => None,
            }
        } else {
            None
        };
        assert_eq!(parse_hex_color(sample).ok(), expected, "{}", sample);
    }
}

#[test]
fn algorithms_are_found_by_name() {
    assert_eq!(Algorithm::from_str("recursive_backtracking"), Some(Algorithm::RecursiveBacktracking));
    assert_eq!(Algorithm::from_str("recursive-backtracking"), Some(Algorithm::RecursiveBacktracking));
    assert_eq!(Algorithm::from_str("kruskal"), Some(Algorithm::Kruskal));
    assert_eq!(Algorithm::from_str("prim"), Some(Algorithm::Prim));
    assert_eq!(Algorithm::from_str("aldous_broder"), Some(Algorithm::AldousBroder));
    assert_eq!(Algorithm::from_str("aldous-broder"), Some(Algorithm::AldousBroder));
    assert_eq!(Algorithm::from_str("KRUSKAL"), Some(Algorithm::Kruskal));
    assert_eq!(Algorithm::from_str("Hunt_And_Kill"), Some(Algorithm::HuntAndKill));
    assert_eq!(Algorithm::from_str("\u{212a}ruskal"), Some(Algorithm::Kruskal));
    assert_eq!(
        Algorithm::from_str("recursive_backtracking_braided"),
        Some(Algorithm::RecursiveBacktrackingBraided)
    );
    assert_eq!(Algorithm::from_str("dijkstra"), None);
    assert_eq!(Algorithm::from_str(""), None);
    assert_eq!(Algorithm::from_str(" prim"), None);
    assert_eq!(Algorithm::from_str("hunt_and-kill"), None);
}

#[test]
fn algorithm_names_round_trip() {
    let all = Algorithm::all();
    assert_eq!(all.len(), 19);
    for algorithm in all {
        assert_eq!(Algorithm::from_str(algorithm.to_string()), Some(algorithm));
        assert_eq!(Algorithm::from_str(algorithm.with_hyphens()), Some(algorithm));
        assert_eq!(
            Algorithm::from_str(&algorithm.to_string().to_uppercase()),
            Some(algorithm)
        );
    }
    assert_eq!(Algorithm::RecursiveBacktracking.to_string(), "recursive_backtracking");
    assert_eq!(Algorithm::Kruskal.to_string(), "kruskal");
    assert_eq!(Algorithm::Prim.to_string(), "prim");
    assert_eq!(Algorithm::AldousBroder.to_string(), "aldous_broder");
    assert_eq!(Algorithm::DfsIterative.with_hyphens(), "dfs-iterative");
}

#[test]
fn names_are_matched_as_the_standard_library_lowers_them() {
    for name in ["recursive_backtracking", "kruskal", "hunt-and-kill", "dfs_iterative"] {
        let expected = Algorithm::from_str(name);
        assert!(expected.is_some());
        let letters: Vec<char> = name.chars().collect();
        for at in 0..letters.len() {
            for code in 0u32..0x2200 {
                let Some(c) = char::from_u32(code) else { continue };
                let mut changed = letters.clone();
                changed[at] = c;
                let text: String = changed.into_iter().collect();
                let lowered = text.to_lowercase();
                assert_eq!(Algorithm::from_str(&text), Algorithm::from_str(&lowered), "{:?}", text);
                if lowered == name {
                    assert_eq!(Algorithm::from_str(&text), expected);
                }
            }
        }
    }
}
