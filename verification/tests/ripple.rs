use shudu::ripple::Ripple;

/// Checks that `sol` is a valid completion of `puzzle`: 81 digits, every
/// given kept, and no digit repeated in a row, column or block.
fn is_valid_solution(sol: &str, puzzle: &str) -> bool {
    let s: Vec<char> = sol.chars().collect();
    if s.len() != 81 {
        return false;
    }
    let givens: Vec<char> = puzzle.chars().filter(|c| ('1'..='9').contains(c) || *c == '.').collect();
    if givens.len() != 81 {
        return false;
    }
    for k in 0..81 {
        if !('1'..='9').contains(&s[k]) {
            return false;
        }
        if givens[k] != '.' && givens[k] != s[k] {
            return false;
        }
    }
    for a in 0..81 {
        for b in 0..81 {
            if a == b {
                continue;
            }
            let (r1, c1) = (a / 9, a % 9);
            let (r2, c2) = (b / 9, b % 9);
            let peer = r1 == r2 || c1 == c2 || (r1 / 3 == r2 / 3 && c1 / 3 == c2 / 3);
            if peer && s[a] == s[b] {
                return false;
            }
        }
    }
    true
}

#[test]
fn basics() {
    let s = "
		123456789
		.........
		987654321
		123456789
		.........
		987654321
		123456789
		.........
		987654321
		";
    assert_eq!(None, Ripple::solve(&s));

    let b = Ripple::new(&s[0..77]);
    assert_eq!(None, b);

    let solved = "
		123456789
		457389162
		869271453
		372594618
		581762394
		694813527
		715948236
		248635971
		936127845
		";
    let b = Ripple::new(&solved);
    assert_eq!(true, b.is_some());
    let mut b = b.unwrap();
    assert_eq!(true, b.do_solve());
}

#[test]
fn no_try() {
    let s = "
		..28.691.
		8.1......
		3....1.25
		6.9.1...4
		...659...
		1...2.7.9
		43.1....2
		......1.7
		.179.45..
		";
    let ans = Ripple::solve(&s);
    assert_eq!(true, ans.is_some());
    let ans = ans.unwrap();
    assert_eq!(81, ans.len());
    assert_eq!(b'2', ans.as_bytes()[2]);
    assert_eq!(b'5', ans.as_bytes()[0]);

    let s = "
		.58..64..
		........6
		7.21..3.9
		1..3.78..
		....2....
		..58.4..1
		9.1..52.7
		8........
		..76..14.
		";
    let mut b = Ripple::new(&s).unwrap();
    assert_eq!(true, b.do_solve());
}

#[test]
fn medium() {
    // hard?
    let s = "
		....7.19.
		.........
		4....2.87
		63..549..
		..17.64..
		..481..65
		82.9....3
		.........
		.16.4....
		";
    let mut b = Ripple::new(&s).unwrap();
    assert_eq!(true, b.do_solve());
}

#[test]
fn arto_inkala_2010() {
    let s = "..53.....8......2..7..1.5..4....53...1..7...6..32...8..6.5....9..4....3......97..";
    let mut b = Ripple::new(&s).unwrap();
    assert_eq!(true, b.do_solve());
}

#[test]
fn huge_search() {
    let s = ".....6....59.....82....8....45........3........6..3.54...325..6..................";
    let mut b = Ripple::new(&s).unwrap();
    assert_eq!(true, b.do_solve());
}

#[test]
fn hard() {
    // hard?
    let s = "
		8........
		..36.....
		.7..9.2..
		.5...7...
		....457..
		...1...3.
		..1....68
		..85...1.
		.9....4..
		";
    let mut b = Ripple::new(&s).unwrap();
    assert_eq!(true, b.do_solve());
}

#[test]
fn hard_no_ans() {
    let s = "
		8........
		..36.....
		.7..9.2..
		.5...7...
		....457..
		...1...3.
		..12...68
		..85...1.
		.9....4..";
    let mut b = Ripple::new(&s).unwrap();
    assert_eq!(false, b.do_solve());
}

#[test]
fn scenario_unique_completion() {
    let rows = [
        "9165384..",
        ".2.......",
        ".87....31",
        "6.3.1..8.",
        "7..863..5",
        ".5..9.6..",
        "13....25.",
        ".......74",
        "4752.63..",
    ];
    let p = rows.join("\n");
    let ans = Ripple::solve(&p);
    assert!(ans.is_some());
    let ans = ans.unwrap();
    assert!(is_valid_solution(&ans, &p));
}

#[test]
fn scenario_identical_rows_unsolvable() {
    // two identical fully-given rows must clash: no solution
    let rows = [
        "123456789",
        ".........",
        "987654321",
        "123456789",
        ".........",
        "987654321",
        "123456789",
        ".........",
        "987654321",
    ];
    let p = rows.join("\n");
    assert_eq!(None, Ripple::solve(&p));
}

#[test]
fn scenario_truncated_input() {
    let s = "..53.....8......2..7..1.5..4....53...1..7...6..32...8..6.5....9..4....3....";
    assert!(Ripple::new(&s).is_none());
    assert_eq!(None, Ripple::solve(&s));
}

#[test]
fn parse_token_counts() {
    // empty input, and one token short
    assert!(Ripple::new("").is_none());
    let eighty = ".".repeat(80);
    assert!(Ripple::new(&eighty).is_none());
    // exactly 81 tokens parse, whatever whitespace surrounds them
    let eightyone = format!(" \t{}\n.", eighty);
    assert!(Ripple::new(&eightyone).is_some());
    // one token too many is rejected
    let eightytwo = format!("{}..", eighty);
    assert!(Ripple::new(&eightytwo).is_none());
}

#[test]
fn round_trip_solved_string() {
    let rows = [
        "123456789",
        "457389162",
        "869271453",
        "372594618",
        "581762394",
        "694813527",
        "715948236",
        "248635971",
        "936127845",
    ];
    let p = rows.join("\n");
    let flat: String = rows.concat();
    let ans = Ripple::solve(&p);
    assert_eq!(Some(flat), ans);
}

#[test]
fn ripple_idempotent_on_propagated_grid() {
    let rows = [
        "123456789",
        "457389162",
        "869271453",
        "372594618",
        "581762394",
        "694813527",
        "715948236",
        "248635971",
        "936127845",
    ];
    let b = shudu::board::Board::new(&rows.join("\n")).unwrap();
    let pt = shudu::ripple::build_peer_table();
    // propagating from a solved cell of an already-propagated grid
    // succeeds and changes nothing
    let r = shudu::ripple::Ripple::ripple(&pt, b, 4, 7);
    assert!(r.0);
    assert_eq!(b, r.1);
    let r2 = shudu::ripple::Ripple::ripple(&pt, b, 0, 0);
    assert!(r2.0);
    assert_eq!(b, r2.1);
}

#[test]
fn solve_arr_roundtrip() {
    let text = [
        "..28.691.",
        "8.1......",
        "3....1.25",
        "6.9.1...4",
        "...659...",
        "1...2.7.9",
        "43.1....2",
        "......1.7",
        ".179.45..",
    ];
    let mut arr = [['.'; 9]; 9];
    for i in 0..9 {
        for (j, ch) in text[i].chars().enumerate() {
            arr[i][j] = ch;
        }
    }
    let orig = arr;
    assert!(Ripple::solve_arr(&mut arr));
    // the solution extends the givens
    for i in 0..9 {
        for j in 0..9 {
            assert!(('1'..='9').contains(&arr[i][j]));
            if orig[i][j] != '.' {
                assert_eq!(orig[i][j], arr[i][j]);
            }
        }
    }
    assert_eq!('5', arr[0][0]);
    assert_eq!('2', arr[0][2]);

    // an unsolvable grid is left untouched
    let rows = [
        "123456789",
        ".........",
        "987654321",
        "123456789",
        ".........",
        "987654321",
        "123456789",
        ".........",
        "987654321",
    ];
    let mut bad = [['.'; 9]; 9];
    for i in 0..9 {
        for (j, ch) in rows[i].chars().enumerate() {
            bad[i][j] = ch;
        }
    }
    let before = bad;
    assert!(!Ripple::solve_arr(&mut bad));
    assert_eq!(before, bad);
}
