use shudu::board::Board;
use shudu::candidates::Candidates;

#[test]
fn parse_and_cells() {
    let rows = [
        "..28.691.",
        "8.1......",
        "3....1.25",
        "6.9.1...4",
        "...659...",
        "1...2.7.9",
        "43.1....2",
        "......1.7",
        ".179.45..",
    ];
    let p = rows.join("\n");
    let b = Board::new(&p).unwrap();
    assert_eq!('2', b.lucky(0, 2));
    assert_eq!('8', b.lucky(0, 3));
    assert!(b.is_done(0, 2));
    assert!(!b.is_done(0, 0));
    assert_eq!(9, b.cell(0, 0).len());
    assert_eq!(1, b.cell(1, 0).len());
}

#[test]
fn parse_wrong_token_count() {
    assert!(Board::new("123").is_none());
    let eighty_two = ".".repeat(82);
    assert!(Board::new(&eighty_two).is_none());
}

#[test]
fn set_and_substract() {
    let p = ".".repeat(81);
    let mut b = Board::new(&p).unwrap();
    b.set_cell(4, 7, Candidates::from('3'));
    assert!(b.is_done(4, 7));
    assert_eq!('3', b.lucky(4, 7));

    b.substract(0, 0, Candidates::from('1'));
    assert_eq!(8, b.cell(0, 0).len());
    assert_eq!("23456789", b.cell(0, 0).to_string());
}

#[test]
fn from_array_and_write_arr() {
    let mut arr = [['.'; 9]; 9];
    arr[0][0] = '7';
    arr[8][8] = '2';
    let b = Board::from(arr);
    assert_eq!('7', b.lucky(0, 0));
    assert_eq!('2', b.lucky(8, 8));
    assert_eq!(9, b.cell(1, 1).len());

    let mut out = [['x'; 9]; 9];
    b.write_arr(&mut out);
    assert_eq!('7', out[0][0]);
    assert_eq!('2', out[8][8]);
    // an undetermined cell renders through the same single-character table
    assert_eq!(Candidates::new().lucky(), out[1][1]);
}

#[test]
fn peers_of_cell() {
    let peers = Board::peers_of(4, 4);
    assert_eq!(20, peers.len());
    for &(r, c) in peers.iter() {
        let (r, c) = (r as usize, c as usize);
        assert!(r < 9 && c < 9);
        assert!(!(r == 4 && c == 4));
        assert!(r == 4 || c == 4 || (r / 3 == 1 && c / 3 == 1));
    }
    // all 20 peers are distinct
    for i in 0..20 {
        for j in 0..20 {
            if i != j {
                assert_ne!(peers[i], peers[j]);
            }
        }
    }
}

#[test]
fn render_boxed_grid() {
    let p = ".".repeat(81);
    let b = Board::new(&p).unwrap();
    let text = b.to_string();
    let lines: Vec<&str> = text.lines().collect();
    // nine rows plus a separator before each band and one at the bottom
    assert_eq!(13, lines.len());
    // every column is nine digits wide: 9 * (9 + 1) + 9 + 5 inner dashes
    let sep = format!(" +{}+", "-".repeat(95));
    assert_eq!(sep, lines[0]);
    assert_eq!(sep, lines[4]);
    assert_eq!(sep, lines[8]);
    assert_eq!(sep, lines[12]);
    let row = " | 123456789 123456789 123456789 | 123456789 123456789 123456789 | 123456789 123456789 123456789 |";
    assert_eq!(row, lines[1]);
    assert_eq!(row, lines[11]);
}

#[test]
fn board_iter_rows() {
    let p = ".".repeat(81);
    let mut b = Board::new(&p).unwrap();
    b.set_cell(2, 5, Candidates::from('9'));
    let mut it = b.iter();
    let mut rows = 0;
    while let Some(line) = it.next() {
        for (j, cell) in line.iter().enumerate() {
            if rows == 2 && j == 5 {
                assert_eq!(1, cell.len());
            } else {
                assert_eq!(9, cell.len());
            }
        }
        rows += 1;
    }
    assert_eq!(9, rows);
}
